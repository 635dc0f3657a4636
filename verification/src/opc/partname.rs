//! The names of parts, and the targets of relationships.
//!
//! Names are the same when they differ in the case of letters of ASCII alone,
//! but they are written as they were. So a name holds both: its text, and the
//! key by which it is compared.
use vstd::prelude::*;
use vstd::slice::{slice_subrange, slice_to_vec};
use vstd::string::*;

use crate::error::Error;
use crate::opc::fault;
use crate::opc::fault::Fault;
use crate::text;

verus! {

/// The name of a part: `/xl/worksheets/sheet1.xml`.
///
/// It begins with a slash and does not end with one. The root of the package,
/// a slash alone, names no part: it is what the relationships of the package
/// belong to.
#[derive(Debug)]
pub struct PartName {
    pub(crate) text: String,
    pub(crate) key: String,
}

/// The place of the last `c`.
pub open spec fn last_place(s: Seq<char>, c: char) -> Option<int>
    decreases s.len(),
{
    if s.len() == 0 {
        None
    } else if s.last() == c {
        Some(s.len() - 1)
    } else {
        last_place(s.drop_last(), c)
    }
}

/// What stands between separators.
pub open spec fn segments(s: Seq<char>, c: char) -> Seq<Seq<char>>
    decreases s.len(),
{
    match last_place(s, c) {
        Some(i) => if 0 <= i < s.len() {
            segments(s.take(i), c).push(s.skip(i + 1))
        } else {
            seq![s]
        },
        None => seq![s],
    }
}

/// A part of a name between slashes: not empty, and without a dot at its end.
pub open spec fn segment_ok(s: Seq<char>) -> bool {
    s.len() > 0 && s.last() != '.'
}

pub open spec fn segments_ok(s: Seq<Seq<char>>) -> bool {
    forall|i: int| 0 <= i < s.len() ==> segment_ok(#[trigger] s[i])
}

/// A character that may stand in a name.
pub open spec fn name_char(c: char) -> bool {
    c != '\\' && c >= ' ' && c != '\u{7f}'
}

pub open spec fn name_chars(s: Seq<char>) -> bool {
    forall|i: int| 0 <= i < s.len() ==> name_char(#[trigger] s[i])
}

/// Whether a text is a name, or the root.
pub open spec fn valid(t: Seq<char>) -> bool {
    t == seq!['/'] || (t.len() > 1 && t[0] == '/' && segments_ok(segments(t.skip(1), '/'))
        && name_chars(t))
}

/// What stands behind the last slash.
pub open spec fn last_segment(t: Seq<char>) -> Seq<char> {
    match last_place(t, '/') {
        Some(i) => t.skip(i + 1),
        None => t,
    }
}

/// What stands up to the last slash, with it.
pub open spec fn dir(t: Seq<char>) -> Seq<char> {
    match last_place(t, '/') {
        Some(i) => t.take(i + 1),
        None => seq!['/'],
    }
}

/// What stands behind the last dot of the last segment, if anything does.
pub open spec fn extension(t: Seq<char>) -> Option<Seq<char>> {
    let s = last_segment(t);
    match last_place(s, '.') {
        Some(i) => if i + 1 < s.len() {
            Some(s.skip(i + 1))
        } else {
            None
        },
        None => None,
    }
}

pub open spec fn ends_with(s: Seq<char>, t: Seq<char>) -> bool {
    t.len() <= s.len() && s.skip(s.len() - t.len()) == t
}

/// Whether a name is that of a file of relationships.
pub open spec fn is_rels(t: Seq<char>) -> bool {
    ends_with(text::lowered(t), ".rels"@) && ends_with(text::lowered(dir(t)), "/_rels/"@)
}

/// The text of the name of the relationships of a part.
pub open spec fn rels_text(t: Seq<char>) -> Seq<char> {
    dir(t) + "_rels/"@ + last_segment(t) + ".rels"@
}

/// A name, when the text is one.
pub open spec fn named(t: Seq<char>) -> Result<Seq<char>, Fault> {
    if valid(t) {
        Ok(t)
    } else {
        Err(Fault::BadPartName(t))
    }
}

/// The name of the relationships of a part.
pub open spec fn rels_of(t: Seq<char>) -> Result<Seq<char>, Fault> {
    if is_rels(t) {
        Err(Fault::BadPartName(t))
    } else {
        named(rels_text(t))
    }
}

/// The part to which relationships belong.
pub open spec fn owner_of(t: Seq<char>) -> Option<Seq<char>> {
    let s = last_segment(t);
    if !is_rels(t) || !ends_with(s, ".rels"@) {
        None
    } else {
        let own = s.take(s.len() - 5);
        let up = dir(t).take(dir(t).len() - 6);
        if own.len() == 0 {
            if up == seq!['/'] {
                Some(up)
            } else {
                None
            }
        } else if valid(up + own) {
            Some(up + own)
        } else {
            None
        }
    }
}

/// The part of a target before `#` or `?`.
pub open spec fn head(s: Seq<char>, i: int) -> Seq<char>
    decreases s.len() - i,
{
    if !(0 <= i < s.len()) || s[i] == '#' || s[i] == '?' {
        s.take(i)
    } else {
        head(s, i + 1)
    }
}

/// The value of a hexadecimal digit.
pub open spec fn hex(b: u8) -> Option<u8> {
    if 48 <= b <= 57 {
        Some((b - 48) as u8)
    } else if 97 <= b <= 102 {
        Some((b - 87) as u8)
    } else if 65 <= b <= 70 {
        Some((b - 55) as u8)
    } else {
        None
    }
}

/// The bytes from `i` on with every `%` and two hexadecimal digits read. A `%`
/// without two digits stands for itself.
pub open spec fn unescaped(s: Seq<u8>, i: int) -> Seq<u8>
    decreases s.len() - i,
{
    if !(0 <= i < s.len()) {
        Seq::empty()
    } else if s[i] == 37 && i + 2 < s.len() && hex(s[i + 1]) is Some && hex(s[i + 2]) is Some {
        seq![(hex(s[i + 1])->0 * 16 + hex(s[i + 2])->0) as u8] + unescaped(s, i + 3)
    } else {
        seq![s[i]] + unescaped(s, i + 1)
    }
}

/// A target without its escapes.
pub open spec fn unescaped_text(s: Seq<char>) -> Result<Seq<char>, Fault> {
    let b = unescaped(vstd::utf8::encode_utf8(s), 0);
    if vstd::utf8::valid_utf8(b) {
        Ok(vstd::utf8::decode_utf8(b))
    } else {
        Err(Fault::BadPartName(s))
    }
}

/// Where a way ends: `.` stays, `..` goes up. There is nothing above the root.
pub open spec fn walked(segs: Seq<Seq<char>>) -> Option<Seq<Seq<char>>>
    decreases segs.len(),
{
    if segs.len() == 0 {
        Some(Seq::empty())
    } else {
        match walked(segs.drop_last()) {
            None => None,
            Some(stack) => {
                let s = segs.last();
                if s == Seq::<char>::empty() || s == seq!['.'] {
                    Some(stack)
                } else if s == seq!['.', '.'] {
                    if stack.len() == 0 {
                        None
                    } else {
                        Some(stack.drop_last())
                    }
                } else {
                    Some(stack.push(s))
                }
            },
        }
    }
}

/// Segments with a slash before each.
pub open spec fn joined(segs: Seq<Seq<char>>) -> Seq<char>
    decreases segs.len(),
{
    if segs.len() == 0 {
        Seq::empty()
    } else {
        joined(segs.drop_last()) + seq!['/'] + segs.last()
    }
}

/// The part at which a target of a part points.
pub open spec fn resolved(t: Seq<char>, target: Seq<char>) -> Result<Seq<char>, Fault> {
    match unescaped_text(head(target, 0)) {
        Err(e) => Err(e),
        Ok(u) => {
            let path = if u.len() > 0 && u[0] == '/' {
                u
            } else {
                dir(t) + u
            };
            match walked(segments(path, '/')) {
                None => Err(Fault::BadPartName(target)),
                Some(stack) => if stack.len() == 0 {
                    Err(Fault::BadPartName(target))
                } else {
                    named(joined(stack))
                },
            }
        },
    }
}

/// A name as a text.
pub open spec fn name_view(r: Result<PartName, Error>) -> Result<Seq<char>, Fault> {
    match r {
        Ok(n) => Ok(n@),
        Err(e) => Err(fault::fault_of(e)),
    }
}

pub proof fn lemma_last_place(s: Seq<char>, c: char)
    ensures
        match last_place(s, c) {
            Some(i) => 0 <= i < s.len() && s[i] == c && forall|k: int|
                i < k < s.len() ==> #[trigger] s[k] != c,
            None => forall|k: int| 0 <= k < s.len() ==> #[trigger] s[k] != c,
        },
    decreases s.len(),
{
    if s.len() > 0 && s.last() != c {
        lemma_last_place(s.drop_last(), c);
        assert forall|k: int|
            (match last_place(s, c) {
                Some(i) => i,
                None => -1,
            }) < k < s.len() implies #[trigger] s[k] != c by {
            if k < s.len() - 1 {
                assert(s.drop_last()[k] == s[k]);
            }
        }
    }
}

/// The place of the last `c` before `n`.
fn rposition(s: &[char], n: usize, c: char) -> (r: Option<usize>)
    requires
        n <= s@.len(),
    ensures
        match r {
            Some(i) => last_place(s@.take(n as int), c) == Some(i as int) && i < n,
            None => last_place(s@.take(n as int), c) is None,
        },
{
    let mut i: usize = n;
    while i > 0
        invariant
            i <= n <= s@.len(),
            last_place(s@.take(n as int), c) == last_place(s@.take(i as int), c),
        decreases i,
    {
        assert(s@.take(i as int).drop_last() =~= s@.take(i - 1));
        if s[i - 1] == c {
            return Some(i - 1);
        }
        i = i - 1;
    }
    None
}

/// What stands between separators.
pub(crate) fn split(s: &[char], c: char) -> (r: Vec<Vec<char>>)
    ensures
        lists(r@) == segments(s@, c),
    decreases s@.len(),
{
    let n: usize = s.len();
    assert(s@.take(n as int) =~= s@);
    match rposition(s, n, c) {
        Some(i) => {
            let front = slice_subrange(s, 0, i);
            let back = slice_subrange(s, i + 1, n);
            assert(front@ =~= s@.take(i as int));
            assert(back@ =~= s@.skip(i + 1));
            let mut r: Vec<Vec<char>> = split(front, c);
            let ghost before = r@;
            let v: Vec<char> = slice_to_vec(back);
            assert(v@ =~= back@);
            r.push(v);
            assert(lists(r@) =~= lists(before).push(v@));
            r
        },
        None => {
            let v: Vec<char> = slice_to_vec(s);
            assert(v@ =~= s@);
            let mut r: Vec<Vec<char>> = Vec::new();
            r.push(v);
            assert(lists(r@) =~= seq![s@]);
            r
        },
    }
}

pub open spec fn lists(v: Seq<Vec<char>>) -> Seq<Seq<char>> {
    v.map_values(|x: Vec<char>| x@)
}

/// Whether a text ends with another one.
pub(crate) fn has_end(s: &[char], t: &str) -> (r: bool)
    ensures
        r == ends_with(s@, t@),
{
    let u: Vec<char> = text::chars_of(t);
    let n: usize = s.len();
    if u.len() > n {
        return false;
    }
    let back = slice_subrange(s, n - u.len(), n);
    assert(back@ =~= s@.skip(n - u@.len()));
    text::same_chars(back, u.as_slice())
}

/// A text with the capital letters of ASCII made small.
pub(crate) fn lower_chars(s: &[char]) -> (r: Vec<char>)
    ensures
        r@ == text::lowered(s@),
{
    let mut v: Vec<char> = Vec::new();
    let mut i: usize = 0;
    while i < s.len()
        invariant
            i <= s@.len(),
            v@ == text::lowered(s@.take(i as int)),
        decreases s@.len() - i,
    {
        v.push(text::to_lower(s[i]));
        i = i + 1;
        assert(v@ =~= text::lowered(s@.take(i as int)));
    }
    assert(s@.take(i as int) =~= s@);
    v
}

/// A text with the capital letters of ASCII made small.
pub(crate) fn lower_text(s: &str) -> (r: String)
    ensures
        r@ == text::lowered(s@),
{
    let cs: Vec<char> = text::chars_of(s);
    let v: Vec<char> = lower_chars(cs.as_slice());
    text::string_of(v.as_slice())
}

/// Whether a text is a name, or the root.
fn is_valid(t: &[char]) -> (r: bool)
    ensures
        r == valid(t@),
{
    let n: usize = t.len();
    if n == 0 || t[0] != '/' {
        return false;
    }
    if n == 1 {
        assert(t@ =~= seq!['/']);
        return true;
    }
    let body = slice_subrange(t, 1, n);
    assert(body@ =~= t@.skip(1));
    let parts: Vec<Vec<char>> = split(body, '/');
    let ghost segs = segments(t@.skip(1), '/');
    let mut i: usize = 0;
    while i < parts.len()
        invariant
            i <= parts@.len(),
            lists(parts@) == segs,
            segs == segments(t@.skip(1), '/'),
            t@.len() > 1,
            forall|k: int| 0 <= k < i ==> segment_ok(#[trigger] segs[k]),
        decreases parts@.len() - i,
    {
        let p = &parts[i];
        assert(segs[i as int] == p@);
        let m: usize = p.len();
        if m == 0 || p[m - 1] == '.' {
            assert(!segment_ok(segs[i as int]));
            return false;
        }
        i = i + 1;
    }
    assert(segs.len() == parts@.len());
    let mut k: usize = 0;
    while k < n
        invariant
            k <= n,
            n == t@.len(),
            n > 1,
            forall|j: int| 0 <= j < k ==> name_char(#[trigger] t@[j]),
        decreases n - k,
    {
        let c: char = t[k];
        if c == '\\' || c < ' ' || c == '\u{7f}' {
            assert(!name_char(t@[k as int]));
            return false;
        }
        k = k + 1;
    }
    true
}

fn hex_of(b: u8) -> (r: Option<u8>)
    ensures
        r == hex(b),
        r matches Some(v) ==> v < 16,
{
    if 48 <= b && b <= 57 {
        Some(b - 48)
    } else if 97 <= b && b <= 102 {
        Some(b - 87)
    } else if 65 <= b && b <= 70 {
        Some(b - 55)
    } else {
        None
    }
}

/// A target without its escapes.
fn percent_decode(s: &str) -> (r: Result<String, Error>)
    ensures
        match r {
            Ok(t) => unescaped_text(s@) == Ok::<Seq<char>, Fault>(t@),
            Err(e) => unescaped_text(s@) == Err::<Seq<char>, Fault>(fault::fault_of(e)),
        },
{
    let b = s.as_bytes();
    let mut out: Vec<u8> = Vec::new();
    let mut i: usize = 0;
    let n: usize = b.len();
    assert(Seq::<u8>::empty() + unescaped(b@, 0) =~= unescaped(b@, 0));
    while i < n
        invariant
            i <= n,
            n == b@.len(),
            out@ + unescaped(b@, i as int) == unescaped(b@, 0),
        decreases n - i,
    {
        let ghost before = out@;
        if b[i] == 37 && n - i > 2 {
            if let Some(h) = hex_of(b[i + 1]) {
                if let Some(l) = hex_of(b[i + 2]) {
                    out.push(h * 16 + l);
                    proof {
                        assert(out@ + unescaped(b@, i + 3) =~= before + unescaped(b@, i as int));
                    }
                    i = i + 3;
                    continue;
                }
            }
        }
        out.push(b[i]);
        proof {
            assert(out@ + unescaped(b@, i + 1) =~= before + unescaped(b@, i as int));
        }
        i = i + 1;
    }
    assert(out@ =~= unescaped(b@, 0));
    match text::utf8_text(out.as_slice()) {
        Ok(t) => Ok(t),
        Err(_) => Err(fault::bad_part_name(s)),
    }
}

/// The part of a target before `#` or `?`.
fn head_len(s: &[char]) -> (r: usize)
    ensures
        r <= s@.len(),
        head(s@, 0) == s@.take(r as int),
{
    let mut i: usize = 0;
    while i < s.len() && s[i] != '#' && s[i] != '?'
        invariant
            i <= s@.len(),
            head(s@, 0) == head(s@, i as int),
        decreases s@.len() - i,
    {
        i = i + 1;
    }
    i
}

/// Where a way ends.
fn normalize(path: &[char]) -> (r: Option<Vec<char>>)
    ensures
        match r {
            Some(v) => walked(segments(path@, '/')) is Some && walked(
                segments(path@, '/'),
            )->0.len() > 0 && v@ == joined(walked(segments(path@, '/'))->0),
            None => walked(segments(path@, '/')) is None || walked(
                segments(path@, '/'),
            )->0.len() == 0,
        },
{
    let parts: Vec<Vec<char>> = split(path, '/');
    let ghost segs = segments(path@, '/');
    let mut stack: Vec<Vec<char>> = Vec::new();
    let mut i: usize = 0;
    assert(lists(stack@) =~= Seq::<Seq<char>>::empty());
    assert(segs.take(0) =~= Seq::<Seq<char>>::empty());
    while i < parts.len()
        invariant
            i <= parts@.len(),
            lists(parts@) == segs,
            segs == segments(path@, '/'),
            walked(segs.take(i as int)) == Some(lists(stack@)),
        decreases parts@.len() - i,
    {
        let p = &parts[i];
        let ghost before = stack@;
        proof {
            assert(segs[i as int] == p@);
            assert(segs.take(i + 1).drop_last() =~= segs.take(i as int));
            assert(segs.take(i + 1).last() == p@);
        }
        let n: usize = p.len();
        if n == 0 || (n == 1 && p[0] == '.') {
            proof {
                if n == 0 {
                    assert(p@ =~= Seq::<char>::empty());
                } else {
                    assert(p@ =~= seq!['.']);
                }
            }
        } else if n == 2 && p[0] == '.' && p[1] == '.' {
            assert(p@ =~= seq!['.', '.']);
            if stack.len() == 0 {
                proof {
                    lemma_walk_lost(segs, i + 1);
                }
                return None;
            }
            let _top = stack.pop();
            assert(lists(stack@) =~= lists(before).drop_last());
        } else {
            assert(p@ != seq!['.'] && p@ != seq!['.', '.'] && p@ != Seq::<char>::empty()) by {
                if p@ == seq!['.'] {
                    assert(p@.len() == 1 && p@[0] == '.');
                }
                if p@ == seq!['.', '.'] {
                    assert(p@.len() == 2 && p@[0] == '.' && p@[1] == '.');
                }
            }
            let v: Vec<char> = slice_to_vec(p.as_slice());
            assert(v@ =~= p@);
            stack.push(v);
            assert(lists(stack@) =~= lists(before).push(p@));
        }
        i = i + 1;
    }
    assert(segs.take(i as int) =~= segs);
    if stack.len() == 0 {
        return None;
    }
    let ghost all = lists(stack@);
    let mut out: Vec<char> = Vec::new();
    let mut k: usize = 0;
    assert(all.take(0) =~= Seq::<Seq<char>>::empty());
    while k < stack.len()
        invariant
            k <= stack@.len(),
            all == lists(stack@),
            out@ == joined(all.take(k as int)),
        decreases stack@.len() - k,
    {
        let ghost before = out@;
        out.push('/');
        out.extend_from_slice(stack[k].as_slice());
        k = k + 1;
        proof {
            assert(all.take(k as int).drop_last() =~= all.take(k - 1));
            assert(all.take(k as int).last() == stack@[k - 1]@);
            assert(out@ =~= before + seq!['/'] + stack@[k - 1]@);
        }
    }
    assert(all.take(k as int) =~= all);
    Some(out)
}

/// A way that left the root does not come back.
proof fn lemma_walk_lost(segs: Seq<Seq<char>>, n: int)
    requires
        0 <= n <= segs.len(),
        walked(segs.take(n)) is None,
    ensures
        walked(segs) is None,
    decreases segs.len(),
{
    if n < segs.len() {
        assert(segs.drop_last().take(n) =~= segs.take(n));
        lemma_walk_lost(segs.drop_last(), n);
    } else {
        assert(segs.take(n) =~= segs);
    }
}

impl PartName {
    pub open(crate) spec fn view(&self) -> Seq<char> {
        self.text@
    }

    /// What names are compared by.
    pub open(crate) spec fn folded(&self) -> Seq<char> {
        self.key@
    }

    /// The text is a name, and the key belongs to it.
    pub open spec fn wf(&self) -> bool {
        valid(self@) && self.folded() == text::lowered(self@)
    }

    /// The name that a text is, written from the root of the package.
    pub fn new(s: &str) -> (r: Result<Self, Error>)
        ensures
            name_view(r) == named(s@),
            r matches Ok(n) ==> n.wf(),
    {
        let cs: Vec<char> = text::chars_of(s);
        if !is_valid(cs.as_slice()) {
            return Err(fault::bad_part_name(s));
        }
        Ok(PartName { text: s.to_owned(), key: lower_text(s) })
    }

    /// The name of an entry of an archive, which has no slash at its beginning.
    pub fn from_zip_name(name: &str) -> (r: Result<Self, Error>)
        ensures
            name_view(r) == named(seq!['/'] + name@),
            r matches Ok(n) ==> n.wf(),
    {
        let mut s: String = String::new();
        s.push('/');
        s.append(name);
        assert(s@ =~= seq!['/'] + name@);
        PartName::new(s.as_str())
    }

    /// The root of the package.
    #[must_use]
    pub fn root() -> (r: Self)
        ensures
            r@ == seq!['/'],
            r.wf(),
    {
        proof {
            reveal_strlit("/");
            assert("/"@ =~= seq!['/']);
            assert(text::lowered(seq!['/']) =~= seq!['/']);
        }
        PartName { text: "/".to_owned(), key: "/".to_owned() }
    }

    /// Whether the name is the root of the package.
    #[must_use]
    pub fn is_root(&self) -> (r: bool)
        requires
            self.wf(),
        ensures
            r == (self@ == seq!['/']),
    {
        let cs: Vec<char> = text::chars_of(self.text.as_str());
        proof {
            if self@.len() == 1 {
                assert(self@ =~= seq!['/']);
            }
        }
        cs.len() == 1
    }

    /// The text of the name.
    #[must_use]
    pub fn as_str(&self) -> (r: &str)
        ensures
            r@ == self@,
    {
        self.text.as_str()
    }

    /// The key of the name: its text with the capital letters of ASCII made
    /// small.
    #[must_use]
    pub fn key(&self) -> (r: &str)
        ensures
            r@ == self.folded(),
            self.wf() ==> r@ == text::lowered(self@),
    {
        self.key.as_str()
    }

    /// The name of the entry of an archive: the text without its slash.
    #[must_use]
    pub fn zip_name(&self) -> (r: String)
        requires
            self.wf(),
        ensures
            r@ == self@.skip(1),
    {
        let cs: Vec<char> = text::chars_of(self.text.as_str());
        let n: usize = cs.len();
        let s = slice_subrange(cs.as_slice(), 1, n);
        assert(s@ =~= self@.skip(1));
        text::string_of(s)
    }

    /// What stands behind the last slash.
    #[must_use]
    pub fn last_segment(&self) -> (r: String)
        ensures
            r@ == last_segment(self@),
    {
        let cs: Vec<char> = self.segment_chars();
        text::string_of(cs.as_slice())
    }

    fn segment_chars(&self) -> (r: Vec<char>)
        ensures
            r@ == last_segment(self@),
    {
        let cs: Vec<char> = text::chars_of(self.text.as_str());
        let n: usize = cs.len();
        assert(cs@.take(n as int) =~= cs@);
        match rposition(cs.as_slice(), n, '/') {
            Some(i) => {
                let s = slice_subrange(cs.as_slice(), i + 1, n);
                assert(s@ =~= self@.skip(i + 1));
                let v: Vec<char> = slice_to_vec(s);
                assert(v@ =~= s@);
                v
            },
            None => cs,
        }
    }

    /// What stands up to the last slash, with it. Targets of relationships are
    /// read from there.
    #[must_use]
    pub fn dir(&self) -> (r: String)
        ensures
            r@ == dir(self@),
    {
        let cs: Vec<char> = self.dir_chars();
        text::string_of(cs.as_slice())
    }

    fn dir_chars(&self) -> (r: Vec<char>)
        ensures
            r@ == dir(self@),
    {
        let cs: Vec<char> = text::chars_of(self.text.as_str());
        let n: usize = cs.len();
        assert(cs@.take(n as int) =~= cs@);
        match rposition(cs.as_slice(), n, '/') {
            Some(i) => {
                let s = slice_subrange(cs.as_slice(), 0, i + 1);
                assert(s@ =~= self@.take(i + 1));
                let v: Vec<char> = slice_to_vec(s);
                assert(v@ =~= s@);
                v
            },
            None => {
                let mut v: Vec<char> = Vec::new();
                v.push('/');
                assert(v@ =~= seq!['/']);
                v
            },
        }
    }

    /// What stands behind the last dot of the last segment, if anything does.
    /// The dot may be the first character: the extension of `.rels` is `rels`.
    #[must_use]
    pub fn extension(&self) -> (r: Option<String>)
        ensures
            (match r {
                Some(t) => Some(t@),
                None => None,
            }) == extension(self@),
    {
        let cs: Vec<char> = self.segment_chars();
        let n: usize = cs.len();
        assert(cs@.take(n as int) =~= cs@);
        match rposition(cs.as_slice(), n, '.') {
            Some(i) => {
                if i + 1 < n {
                    let s = slice_subrange(cs.as_slice(), i + 1, n);
                    assert(s@ =~= cs@.skip(i + 1));
                    Some(text::string_of(s))
                } else {
                    None
                }
            },
            None => None,
        }
    }

    /// Whether the part is a file of relationships.
    #[must_use]
    pub fn is_rels_part(&self) -> (r: bool)
        requires
            self.wf(),
        ensures
            r == is_rels(self@),
    {
        let key: Vec<char> = text::chars_of(self.key.as_str());
        if !has_end(key.as_slice(), ".rels") {
            return false;
        }
        let dir: Vec<char> = self.dir_chars();
        let small: Vec<char> = lower_chars(dir.as_slice());
        has_end(small.as_slice(), "/_rels/")
    }

    /// The name of the relationships of the part. A file of relationships has
    /// none.
    pub fn rels_part(&self) -> (r: Result<Self, Error>)
        requires
            self.wf(),
        ensures
            name_view(r) == rels_of(self@),
            r matches Ok(n) ==> n.wf(),
    {
        if self.is_rels_part() {
            return Err(fault::bad_part_name(self.text.as_str()));
        }
        let mut s: String = self.dir();
        s.append("_rels/");
        let seg: String = self.last_segment();
        s.append(seg.as_str());
        s.append(".rels");
        assert(s@ =~= rels_text(self@));
        PartName::new(s.as_str())
    }

    /// The part to which the relationships belong; `None` when the part is no
    /// file of relationships.
    #[must_use]
    pub fn rels_owner(&self) -> (r: Option<Self>)
        requires
            self.wf(),
        ensures
            (match r {
                Some(n) => Some(n@),
                None => None,
            }) == owner_of(self@),
            r matches Some(n) ==> n.wf(),
    {
        if !self.is_rels_part() {
            return None;
        }
        proof {
            reveal_strlit(".rels");
            reveal_strlit("/_rels/");
        }
        let seg: Vec<char> = self.segment_chars();
        if !has_end(seg.as_slice(), ".rels") {
            return None;
        }
        let dir: Vec<char> = self.dir_chars();
        proof {
            assert(text::lowered(dir@).len() == dir@.len());
        }
        let own = slice_subrange(seg.as_slice(), 0, seg.len() - 5);
        let up = slice_subrange(dir.as_slice(), 0, dir.len() - 6);
        assert(own@ =~= seg@.take(seg@.len() - 5));
        assert(up@ =~= dir@.take(dir@.len() - 6));
        if own.len() == 0 {
            if up.len() == 1 && up[0] == '/' {
                assert(up@ =~= seq!['/']);
                return Some(PartName::root());
            }
            assert(up@ != seq!['/']) by {
                if up@ == seq!['/'] {
                    assert(up@.len() == 1 && up@[0] == '/');
                }
            }
            return None;
        }
        let mut s: String = text::string_of(up);
        text::push_chars(&mut s, own);
        match PartName::new(s.as_str()) {
            Ok(n) => Some(n),
            Err(_) => None,
        }
    }

    /// The part at which a target of this part points.
    ///
    /// A target is read from the directory of the part. What stands behind `#`
    /// or `?` is dropped, and `%` with two digits is a byte.
    pub fn resolve(&self, target: &str) -> (r: Result<Self, Error>)
        ensures
            name_view(r) == resolved(self@, target@),
            r matches Ok(n) ==> n.wf(),
    {
        let cs: Vec<char> = text::chars_of(target);
        let n: usize = head_len(cs.as_slice());
        let front = slice_subrange(cs.as_slice(), 0, n);
        assert(front@ =~= head(target@, 0));
        let front_text: String = text::string_of(front);
        let decoded: String = match percent_decode(front_text.as_str()) {
            Ok(t) => t,
            Err(e) => return Err(e),
        };
        let u: Vec<char> = text::chars_of(decoded.as_str());
        let path: Vec<char>;
        if u.len() > 0 && u[0] == '/' {
            path = u;
        } else {
            let mut p: Vec<char> = self.dir_chars();
            p.extend_from_slice(u.as_slice());
            assert(p@ =~= dir(self@) + u@);
            path = p;
        }
        match normalize(path.as_slice()) {
            None => Err(fault::bad_part_name(target)),
            Some(v) => {
                let s: String = text::string_of(v.as_slice());
                PartName::new(s.as_str())
            },
        }
    }

    /// Whether two names are the same but for the case of letters of ASCII.
    #[must_use]
    pub fn same(&self, other: &PartName) -> (r: bool)
        ensures
            r == (self.folded() == other.folded()),
    {
        text::same_text(self.key.as_str(), other.key.as_str())
    }
}

impl Clone for PartName {
    fn clone(&self) -> (r: Self)
        ensures
            r@ == self@,
            r.folded() == self.folded(),
    {
        PartName { text: self.text.as_str().to_owned(), key: self.key.as_str().to_owned() }
    }
}

impl PartialEq for PartName {
    fn eq(&self, other: &Self) -> (r: bool) {
        self.same(other)
    }
}

impl vstd::std_specs::cmp::PartialEqSpecImpl for PartName {
    open spec fn obeys_eq_spec() -> bool {
        true
    }

    open spec fn eq_spec(&self, other: &Self) -> bool {
        self.folded() == other.folded()
    }
}

impl Eq for PartName {

}

} // verus!
