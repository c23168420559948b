//! Reader options and the resolver limits that they lower to.

use vstd::prelude::*;

verus! {

pub const HEADER_SCAN_LIMIT: u64 = 1_024;
pub const HEADER_PARSE_OVERLAP: u64 = 64;
pub const TAIL_SCAN_LIMIT: u64 = 65_536;
pub const XREF_INITIAL_WINDOW: u64 = 4_096;
pub const XREF_WINDOW_LIMIT: u64 = 16_777_216;
pub const XREF_DECOMPRESSED_LIMIT: usize = 33_554_432;
pub const MAX_XREF_ENTRIES: u64 = 1_000_000;
pub const MAX_XREF_REVISIONS: usize = 1_024;
pub const MAX_XREF_FIELD_WIDTH: u64 = 8;
pub const INDIRECT_HEADER_LIMIT: u64 = 256;
pub const INITIAL_OBJECT_WINDOW: u64 = 4_096;
pub const OBJECT_GROWTH_CHUNK: u64 = 65_536;
pub const DEFAULT_OBJECT_LIMIT: u64 = 4_194_304;
pub const DEFAULT_STREAM_LIMIT: u64 = 67_108_864;
pub const DEFAULT_ENDSTREAM_TAIL_LIMIT: u64 = 64;
pub const DEFAULT_LENGTH_DEPTH_LIMIT: usize = 64;
pub const DEFAULT_PAGE_TREE_DEPTH_LIMIT: usize = 256;
pub const DEFAULT_PAGE_COUNT_LIMIT: usize = 1_000_000;
pub const ENCODED_STREAM_CHUNK_LIMIT: usize = 65_536;
pub const PAGE_TREE_DEREFERENCE_LIMIT: usize = 128;

/// Resource limits and the optional password of a reader.
#[derive(Clone)]
pub struct IndexedReaderOptions {
    /// The most bytes parsed while one ordinary object is resolved.
    pub object_bytes: u64,
    /// The most declared or decoded bytes kept of one stream.
    pub stream_bytes: u64,
    /// The most encoded bytes that a stream descriptor may span; any number
    /// that the source holds where there is none.
    pub encoded_stream_bytes: Option<u64>,
    /// The most bytes looked at behind a declared stream payload.
    pub endstream_tail_bytes: u64,
    /// How deep objects and references may be resolved inside one another.
    pub reference_depth: usize,
    /// How deep a page tree is followed.
    pub page_tree_depth: usize,
    /// The most pages kept in a page map.
    pub max_pages: usize,
    /// The raw password, if any.
    pub password: Option<Vec<u8>>,
}

/// The options that a reader has unless it is told otherwise.
pub open spec fn default_options() -> IndexedReaderOptions {
    IndexedReaderOptions {
        object_bytes: DEFAULT_OBJECT_LIMIT,
        stream_bytes: DEFAULT_STREAM_LIMIT,
        encoded_stream_bytes: None,
        endstream_tail_bytes: DEFAULT_ENDSTREAM_TAIL_LIMIT,
        reference_depth: DEFAULT_LENGTH_DEPTH_LIMIT,
        page_tree_depth: DEFAULT_PAGE_TREE_DEPTH_LIMIT,
        max_pages: DEFAULT_PAGE_COUNT_LIMIT,
        password: None,
    }
}

impl Default for IndexedReaderOptions {
    fn default() -> (options: Self)
        ensures
            options == default_options(),
    {
        IndexedReaderOptions {
            object_bytes: DEFAULT_OBJECT_LIMIT,
            stream_bytes: DEFAULT_STREAM_LIMIT,
            encoded_stream_bytes: None,
            endstream_tail_bytes: DEFAULT_ENDSTREAM_TAIL_LIMIT,
            reference_depth: DEFAULT_LENGTH_DEPTH_LIMIT,
            page_tree_depth: DEFAULT_PAGE_TREE_DEPTH_LIMIT,
            max_pages: DEFAULT_PAGE_COUNT_LIMIT,
            password: None,
        }
    }
}

/// The limits that resolution itself keeps to.
#[derive(Clone, Copy, Debug, PartialEq, Eq, Structural)]
pub struct ResolverLimits {
    pub max_object_bytes: u64,
    pub max_stream_bytes: u64,
    pub max_encoded_stream_bytes: Option<u64>,
    pub max_endstream_tail_bytes: u64,
    pub max_length_depth: usize,
}

/// The limits that a reader has unless it is told otherwise.
pub open spec fn default_limits() -> ResolverLimits {
    ResolverLimits {
        max_object_bytes: DEFAULT_OBJECT_LIMIT,
        max_stream_bytes: DEFAULT_STREAM_LIMIT,
        max_encoded_stream_bytes: None,
        max_endstream_tail_bytes: DEFAULT_ENDSTREAM_TAIL_LIMIT,
        max_length_depth: DEFAULT_LENGTH_DEPTH_LIMIT,
    }
}

/// The limits that options ask for.
pub open spec fn limits_of(options: IndexedReaderOptions) -> ResolverLimits {
    ResolverLimits {
        max_object_bytes: options.object_bytes,
        max_stream_bytes: options.stream_bytes,
        max_encoded_stream_bytes: options.encoded_stream_bytes,
        max_endstream_tail_bytes: options.endstream_tail_bytes,
        max_length_depth: options.reference_depth,
    }
}

impl Default for ResolverLimits {
    fn default() -> (limits: Self)
        ensures
            limits == default_limits(),
    {
        ResolverLimits {
            max_object_bytes: DEFAULT_OBJECT_LIMIT,
            max_stream_bytes: DEFAULT_STREAM_LIMIT,
            max_encoded_stream_bytes: None,
            max_endstream_tail_bytes: DEFAULT_ENDSTREAM_TAIL_LIMIT,
            max_length_depth: DEFAULT_LENGTH_DEPTH_LIMIT,
        }
    }
}

impl From<&IndexedReaderOptions> for ResolverLimits {
    fn from(options: &IndexedReaderOptions) -> (limits: Self) {
        ResolverLimits {
            max_object_bytes: options.object_bytes,
            max_stream_bytes: options.stream_bytes,
            max_encoded_stream_bytes: options.encoded_stream_bytes,
            max_endstream_tail_bytes: options.endstream_tail_bytes,
            max_length_depth: options.reference_depth,
        }
    }
}

impl vstd::std_specs::convert::FromSpecImpl<&IndexedReaderOptions> for ResolverLimits {
    open spec fn obeys_from_spec() -> bool {
        true
    }

    open spec fn from_spec(options: &IndexedReaderOptions) -> Self {
        limits_of(*options)
    }
}

/// The default options, with these limits and this password.
pub open spec fn options_with(limits: ResolverLimits, password: Option<Vec<u8>>) -> IndexedReaderOptions {
    IndexedReaderOptions {
        object_bytes: limits.max_object_bytes,
        stream_bytes: limits.max_stream_bytes,
        encoded_stream_bytes: limits.max_encoded_stream_bytes,
        endstream_tail_bytes: limits.max_endstream_tail_bytes,
        reference_depth: limits.max_length_depth,
        password,
        ..default_options()
    }
}

impl IndexedReaderOptions {
    /// The default options, with these limits and this password.
    pub fn with_limits(limits: ResolverLimits, password: Option<Vec<u8>>) -> (options: Self)
        ensures
            options == options_with(limits, password),
    {
        IndexedReaderOptions {
            object_bytes: limits.max_object_bytes,
            stream_bytes: limits.max_stream_bytes,
            encoded_stream_bytes: limits.max_encoded_stream_bytes,
            endstream_tail_bytes: limits.max_endstream_tail_bytes,
            reference_depth: limits.max_length_depth,
            page_tree_depth: DEFAULT_PAGE_TREE_DEPTH_LIMIT,
            max_pages: DEFAULT_PAGE_COUNT_LIMIT,
            password,
        }
    }
}

} // verus!
