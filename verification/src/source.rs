//! Random-access sources of bytes.

use vstd::prelude::*;

use crate::errors::{IndexedReaderError, SourceError};
use crate::memory::ask;
use crate::object::{copy_range, BytesView};

verus! {

/// A cursor-free source of bytes whose length and contents never change.
///
/// Reads that were interrupted are repeated by the source itself.
pub trait RandomAccessSource {
    /// The bytes of the source.
    spec fn contents(&self) -> BytesView;

    /// No read inside the source ever fails.
    spec fn reliable(&self) -> bool;

    /// How many bytes the source has.
    fn len(&self) -> (r: Result<u64, SourceError>)
        ensures
            r matches Ok(length) ==> length == self.contents().len(),
            self.reliable() ==> r is Ok,
    ;

    /// How many bytes the source reports now. One whose length is asked for anew each
    /// time answers here, so that a length that has changed all the same is found out.
    fn reported_len(&self) -> (r: Result<u64, SourceError>)
        ensures
            self.reliable() ==> (r matches Ok(length) && length == self.contents().len()),
    {
        self.len()
    }

    /// Some of the at most `length` bytes from `offset` on; none only where the
    /// source has none there.
    fn read_at(&self, offset: u64, length: usize) -> (r: Result<Vec<u8>, SourceError>)
        ensures
            r matches Ok(bytes) ==> bytes@.len() <= length && (bytes@.len() > 0 ==> offset + bytes@.len()
                <= self.contents().len()) && forall|i: int|
                0 <= i < bytes@.len() ==> #[trigger] bytes@[i] == self.contents()[offset + i],
            self.reliable() ==> r is Ok,
            self.reliable() && length > 0 && offset < self.contents().len() ==> r->Ok_0@.len() > 0,
    ;
}

/// The source, asked for the length that it has now, may answer with this.
pub open spec fn may_report<S: RandomAccessSource>(source: S, reply: Result<u64, SourceError>) -> bool {
    call_ensures(S::reported_len, (&source,), reply)
}

/// Asks a source for the length that it has now.
pub(crate) fn report_len<S: RandomAccessSource>(source: &S) -> (r: Result<u64, SourceError>)
    ensures
        may_report(*source, r),
        source.reliable() ==> (r matches Ok(length) && length == source.contents().len()),
{
    ask(S::reported_len, source)
}

/// A source that holds its bytes in memory.
pub struct BytesSource {
    bytes: Vec<u8>,
}

impl BytesSource {
    /// The bytes of the source.
    pub closed spec fn view(&self) -> Seq<u8> {
        self.bytes@
    }

    /// A source that holds `bytes`.
    pub fn new(bytes: Vec<u8>) -> (source: Self)
        ensures
            source@ == bytes@,
    {
        BytesSource { bytes }
    }
}

impl From<Vec<u8>> for BytesSource {
    fn from(bytes: Vec<u8>) -> (source: Self) {
        BytesSource { bytes }
    }
}

impl vstd::std_specs::convert::FromSpecImpl<Vec<u8>> for BytesSource {
    open spec fn obeys_from_spec() -> bool {
        true
    }

    closed spec fn from_spec(bytes: Vec<u8>) -> Self {
        BytesSource { bytes }
    }
}

impl RandomAccessSource for BytesSource {
    open spec fn contents(&self) -> Seq<u8> {
        self@
    }

    open spec fn reliable(&self) -> bool {
        true
    }

    fn len(&self) -> (r: Result<u64, SourceError>) {
        Ok(self.bytes.len() as u64)
    }

    fn read_at(&self, offset: u64, length: usize) -> (r: Result<Vec<u8>, SourceError>) {
        let available: usize = self.bytes.len();
        if offset >= available as u64 {
            return Ok(Vec::new());
        }
        let start: usize = offset as usize;
        let end: usize = if length < available - start {
            start + length
        } else {
            available
        };
        Ok(copy_range(self.bytes.as_slice(), start, end))
    }
}

/// The bytes of a range, or why there are none.
pub open spec fn range_of(contents: Seq<u8>, offset: u64, length: u64) -> Result<Seq<u8>, IndexedReaderError> {
    if offset + length > u64::MAX {
        Err(IndexedReaderError::Source(SourceError::RangeOverflow { offset, length }))
    } else if offset + length > contents.len() {
        Err(
            IndexedReaderError::Source(
                SourceError::OutOfBounds { offset, length, source_len: contents.len() as u64 },
            ),
        )
    } else if length > usize::MAX {
        Err(IndexedReaderError::Source(SourceError::AllocationFailed { requested: length }))
    } else {
        Ok(contents.subrange(offset as int, offset + length))
    }
}

/// The contents of a vector, or the error.
pub open spec fn bytes_result(r: Result<Vec<u8>, IndexedReaderError>) -> Result<Seq<u8>, IndexedReaderError> {
    match r {
        Ok(bytes) => Ok(bytes@),
        Err(error) => Err(error),
    }
}

/// Appends the `length` bytes from `offset` on to `output`.
pub(crate) fn read_onto<S: RandomAccessSource>(source: &S, offset: u64, length: u64, output: &mut Vec<u8>) -> (r:
    Result<(), IndexedReaderError>)
    ensures
        match range_of(source.contents(), offset, length) {
            Ok(bytes) => {
                &&& r is Ok ==> final(output)@ == old(output)@ + bytes
                &&& source.reliable() ==> r is Ok
                &&& r matches Err(error) ==> error is Source
            },
            Err(expected) => {
                &&& r matches Err(error) && error is Source
                &&& source.reliable() ==> r == Err::<(), IndexedReaderError>(expected)
            },
        },
{
    let end: u64 = match offset.checked_add(length) {
        Some(end) => end,
        None => {
            return Err(IndexedReaderError::Source(SourceError::RangeOverflow { offset, length }));
        },
    };
    let source_len: u64 = match source.len() {
        Ok(source_len) => source_len,
        Err(error) => {
            return Err(IndexedReaderError::Source(error));
        },
    };
    if end > source_len {
        return Err(IndexedReaderError::Source(SourceError::OutOfBounds { offset, length, source_len }));
    }
    if length > usize::MAX as u64 {
        return Err(IndexedReaderError::Source(SourceError::AllocationFailed { requested: length }));
    }
    let wanted: usize = length as usize;
    let ghost bytes = source.contents().subrange(offset as int, offset + length);
    let mut completed: usize = 0;
    assert(old(output)@ + bytes.take(0) =~= old(output)@);
    while completed < wanted
        invariant
            completed <= wanted,
            wanted == length,
            offset + length == end <= source_len,
            source_len == source.contents().len(),
            range_of(source.contents(), offset, length) == Ok::<Seq<u8>, IndexedReaderError>(bytes),
            bytes == source.contents().subrange(offset as int, offset + length),
            output@ == old(output)@ + bytes.take(completed as int),
        decreases wanted - completed,
    {
        let position: u64 = offset + completed as u64;
        let remaining: usize = wanted - completed;
        let chunk: Vec<u8> = match source.read_at(position, remaining) {
            Ok(chunk) => chunk,
            Err(error) => {
                return Err(IndexedReaderError::Source(error));
            },
        };
        let read: usize = chunk.len();
        if read == 0 {
            return Err(
                IndexedReaderError::Source(
                    SourceError::UnexpectedEof { offset, expected: length, actual: completed as u64 },
                ),
            );
        }
        if read > remaining {
            return Err(
                IndexedReaderError::Source(SourceError::InvalidReadCount { returned: read, buffer_len: remaining }),
            );
        }
        let mut index: usize = 0;
        while index < read
            invariant
                index <= read == chunk@.len(),
                completed + read <= wanted,
                wanted == length,
                position == offset + completed,
                bytes.len() == wanted,
                forall|i: int| 0 <= i < chunk@.len() ==> #[trigger] chunk@[i] == bytes[completed + i],
                output@ == old(output)@ + bytes.take(completed + index),
            decreases read - index,
        {
            output.push(chunk[index]);
            assert(bytes.take(completed + index + 1) =~= bytes.take(completed + index).push(chunk@[index as int]));
            assert(output@ =~= old(output)@ + bytes.take(completed + index + 1));
            index += 1;
        }
        completed += read;
    }
    assert(bytes.take(wanted as int) =~= bytes);
    Ok(())
}

/// The `length` bytes from `offset` on.
pub fn read_range<S: RandomAccessSource>(source: &S, offset: u64, length: u64) -> (r: Result<
    Vec<u8>,
    IndexedReaderError,
>)
    ensures
        crate::errors::answers(
            source.reliable(),
            bytes_result(r),
            range_of(source.contents(), offset, length),
        ),
{
    let mut output: Vec<u8> = Vec::new();
    match read_onto(source, offset, length, &mut output) {
        Ok(()) => {
            assert(output@ =~= source.contents().subrange(offset as int, offset + length));
            Ok(output)
        },
        Err(error) => Err(error),
    }
}

/// The at most `limit` bytes from `offset` on, up to the end of the source.
pub open spec fn window_of(contents: Seq<u8>, source_len: u64, offset: u64, limit: u64) -> Result<
    Seq<u8>,
    IndexedReaderError,
> {
    if offset > source_len {
        Err(IndexedReaderError::Source(SourceError::OutOfBounds { offset, length: 0, source_len }))
    } else if source_len - offset < limit {
        range_of(contents, offset, (source_len - offset) as u64)
    } else {
        range_of(contents, offset, limit)
    }
}

/// The at most `limit` bytes from `offset` on, up to the end of the source.
pub fn read_window<S: RandomAccessSource>(source: &S, source_len: u64, offset: u64, limit: u64) -> (r: Result<
    Vec<u8>,
    IndexedReaderError,
>)
    ensures
        crate::errors::answers(
            source.reliable(),
            bytes_result(r),
            window_of(source.contents(), source_len, offset, limit),
        ),
{
    if offset > source_len {
        return Err(IndexedReaderError::Source(SourceError::OutOfBounds { offset, length: 0, source_len }));
    }
    let remaining: u64 = source_len - offset;
    read_range(
        source,
        offset,
        if remaining < limit {
            remaining
        } else {
            limit
        },
    )
}

} // verus!
