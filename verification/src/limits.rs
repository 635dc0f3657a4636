//! Quotas for untrusted input, all in one structure.
//!
//! The sizes written in a ZIP header come from whoever made the archive, so
//! the quotas on unpacked size and compression ratio are checked inside the
//! unpacking loop; the header only allows an early refusal.
use vstd::prelude::*;

use crate::error::{Error, LimitError};

verus! {

/// Quotas on parsing a package.
#[derive(Debug, Clone, PartialEq, Eq, Structural)]
#[non_exhaustive]
pub struct Limits {
    /// Largest accepted input buffer.
    pub max_input_bytes: u64,
    /// Largest number of ZIP entries.
    pub max_entries: u64,
    /// Largest unpacked size of one part.
    pub max_part_bytes: u64,
    /// Largest unpacked size of all parts together.
    pub max_total_uncompressed: u64,
    /// Largest ratio of unpacked to packed size of one entry, measured on the
    /// output actually produced.
    pub max_compression_ratio: u64,
    /// Deepest accepted XML nesting.
    pub max_xml_depth: u64,
    /// Largest number of attributes of one element.
    pub max_attrs_per_element: u64,
    /// Largest number of tree nodes of one part.
    pub max_nodes_per_part: u64,
    /// Longest accepted name (of an element, an attribute or a part).
    pub max_name_bytes: u64,
    /// Whether `<!DOCTYPE` is allowed; `false` in every profile.
    pub allow_doctype: bool,
    /// Whether the CRC of each unpacked entry is compared.
    pub verify_crc_on_read: bool,
}

/// Ok while `got` does not exceed `max`, the given quota error above it.
pub open spec fn quota(got: u64, max: u64, e: LimitError) -> Result<(), Error> {
    if got > max {
        Err(Error::Limit(e))
    } else {
        Ok(())
    }
}

impl Limits {
    /// After how many bytes of output the unpacker looks at the quotas again.
    pub const RATIO_CHECK_STRIDE: u64 = 65536;

    /// The default profile: untrusted input, files up to about 50 MB.
    #[must_use]
    pub fn strict() -> (r: Self)
        ensures
            r.max_input_bytes == 64 * 1024 * 1024,
            r.max_entries == 8_192,
            r.max_part_bytes == 128 * 1024 * 1024,
            r.max_total_uncompressed == 512 * 1024 * 1024,
            r.max_compression_ratio == 200,
            r.max_xml_depth == 256,
            r.max_attrs_per_element == 4_096,
            r.max_nodes_per_part == 8_000_000,
            r.max_name_bytes == 1_024,
            !r.allow_doctype,
            r.verify_crc_on_read,
    {
        Limits {
            max_input_bytes: 64 * 1024 * 1024,
            max_entries: 8_192,
            max_part_bytes: 128 * 1024 * 1024,
            max_total_uncompressed: 512 * 1024 * 1024,
            max_compression_ratio: 200,
            max_xml_depth: 256,
            max_attrs_per_element: 4_096,
            max_nodes_per_part: 8_000_000,
            max_name_bytes: 1_024,
            allow_doctype: false,
            verify_crc_on_read: true,
        }
    }

    /// The relaxed profile for trusted input. DOCTYPE stays forbidden.
    #[must_use]
    pub fn permissive() -> (r: Self)
        ensures
            r.max_input_bytes == 1024 * 1024 * 1024,
            r.max_entries == 1_048_576,
            r.max_part_bytes == 1024 * 1024 * 1024,
            r.max_total_uncompressed == 4 * 1024 * 1024 * 1024,
            r.max_compression_ratio == 10_000,
            r.max_xml_depth == 4_096,
            r.max_attrs_per_element == 65_536,
            r.max_nodes_per_part == 64_000_000,
            r.max_name_bytes == 65_536,
            !r.allow_doctype,
            r.verify_crc_on_read,
    {
        Limits {
            max_input_bytes: 1024 * 1024 * 1024,
            max_entries: 1_048_576,
            max_part_bytes: 1024 * 1024 * 1024,
            max_total_uncompressed: 4 * 1024 * 1024 * 1024,
            max_compression_ratio: 10_000,
            max_xml_depth: 4_096,
            max_attrs_per_element: 65_536,
            max_nodes_per_part: 64_000_000,
            max_name_bytes: 65_536,
            allow_doctype: false,
            verify_crc_on_read: true,
        }
    }

    /// What [`Limits::check_ratio`] answers: the quotient of the output by the
    /// input consumed is held against the quota, and nothing is measured while
    /// no input has been consumed.
    pub open spec fn ratio_verdict(self, produced: u64, compressed: u64) -> Result<(), Error> {
        if compressed == 0 {
            Ok(())
        } else {
            quota(
                produced / compressed,
                self.max_compression_ratio,
                LimitError::CompressionRatio {
                    got: produced / compressed,
                    max: self.max_compression_ratio,
                },
            )
        }
    }

    /// Checks the compression ratio by the output actually produced.
    pub fn check_ratio(&self, produced: u64, compressed: u64) -> (r: Result<(), Error>)
        ensures
            r == self.ratio_verdict(produced, compressed),
    {
        if compressed == 0 {
            return Ok(());
        }
        let ratio: u64 = produced / compressed;
        if ratio > self.max_compression_ratio {
            return Err(
                Error::Limit(
                    LimitError::CompressionRatio { got: ratio, max: self.max_compression_ratio },
                ),
            );
        }
        Ok(())
    }

    /// Checks the size of the input buffer.
    pub fn check_input(&self, got: u64) -> (r: Result<(), Error>)
        ensures
            r == quota(got, self.max_input_bytes, LimitError::InputTooLarge { got, max: self.max_input_bytes }),
    {
        if got > self.max_input_bytes {
            return Err(Error::Limit(LimitError::InputTooLarge { got, max: self.max_input_bytes }));
        }
        Ok(())
    }

    /// Checks the number of ZIP entries.
    pub fn check_entries(&self, got: u64) -> (r: Result<(), Error>)
        ensures
            r == quota(got, self.max_entries, LimitError::TooManyEntries { got, max: self.max_entries }),
    {
        if got > self.max_entries {
            return Err(Error::Limit(LimitError::TooManyEntries { got, max: self.max_entries }));
        }
        Ok(())
    }

    /// Checks the unpacked size of one part.
    pub fn check_part_size(&self, got: u64) -> (r: Result<(), Error>)
        ensures
            r == quota(got, self.max_part_bytes, LimitError::PartTooLarge { got, max: self.max_part_bytes }),
    {
        if got > self.max_part_bytes {
            return Err(Error::Limit(LimitError::PartTooLarge { got, max: self.max_part_bytes }));
        }
        Ok(())
    }

    /// Checks the unpacked size of all parts.
    pub fn check_total_uncompressed(&self, got: u64) -> (r: Result<(), Error>)
        ensures
            r == quota(got, self.max_total_uncompressed, LimitError::TotalUncompressed { got, max: self.max_total_uncompressed }),
    {
        if got > self.max_total_uncompressed {
            return Err(Error::Limit(LimitError::TotalUncompressed { got, max: self.max_total_uncompressed }));
        }
        Ok(())
    }

    /// The same quotas.
    pub(crate) fn duplicate(&self) -> (r: Self)
        ensures
            r == *self,
    {
        Limits {
            max_input_bytes: self.max_input_bytes,
            max_entries: self.max_entries,
            max_part_bytes: self.max_part_bytes,
            max_total_uncompressed: self.max_total_uncompressed,
            max_compression_ratio: self.max_compression_ratio,
            max_xml_depth: self.max_xml_depth,
            max_attrs_per_element: self.max_attrs_per_element,
            max_nodes_per_part: self.max_nodes_per_part,
            max_name_bytes: self.max_name_bytes,
            allow_doctype: self.allow_doctype,
            verify_crc_on_read: self.verify_crc_on_read,
        }
    }

    /// Checks the nesting depth of XML.
    pub fn check_depth(&self, got: u64) -> (r: Result<(), Error>)
        ensures
            r == quota(got, self.max_xml_depth, LimitError::XmlDepth { got, max: self.max_xml_depth }),
    {
        if got > self.max_xml_depth {
            return Err(Error::Limit(LimitError::XmlDepth { got, max: self.max_xml_depth }));
        }
        Ok(())
    }

    /// Checks the number of attributes of one element.
    pub fn check_attrs(&self, got: u64) -> (r: Result<(), Error>)
        ensures
            r == quota(got, self.max_attrs_per_element, LimitError::TooManyAttrs { got, max: self.max_attrs_per_element }),
    {
        if got > self.max_attrs_per_element {
            return Err(Error::Limit(LimitError::TooManyAttrs { got, max: self.max_attrs_per_element }));
        }
        Ok(())
    }

    /// Checks the number of tree nodes of one part.
    pub fn check_nodes(&self, got: u64) -> (r: Result<(), Error>)
        ensures
            r == quota(got, self.max_nodes_per_part, LimitError::TooManyNodes { got, max: self.max_nodes_per_part }),
    {
        if got > self.max_nodes_per_part {
            return Err(Error::Limit(LimitError::TooManyNodes { got, max: self.max_nodes_per_part }));
        }
        Ok(())
    }

    /// Checks the length of a name.
    pub fn check_name_len(&self, got: u64) -> (r: Result<(), Error>)
        ensures
            r == quota(got, self.max_name_bytes, LimitError::NameTooLong { got, max: self.max_name_bytes }),
    {
        if got > self.max_name_bytes {
            return Err(Error::Limit(LimitError::NameTooLong { got, max: self.max_name_bytes }));
        }
        Ok(())
    }
}

impl Default for Limits {
    /// The strict profile: safe behaviour takes no effort.
    fn default() -> (r: Self)
        ensures
            call_ensures(Limits::strict, (), r),
    {
        Limits::strict()
    }
}

} // verus!
