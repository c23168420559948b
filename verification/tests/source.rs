use std::sync::Mutex;

use lopdf::errors::SourceError;
use lopdf::object::BytesView;
use lopdf::source::{read_range, RandomAccessSource};

struct TracingBytesSource {
    bytes: Vec<u8>,
    requests: Mutex<Vec<(u64, usize)>>,
}

impl RandomAccessSource for TracingBytesSource {
    fn contents(&self) -> BytesView {
        unreachable!()
    }

    fn reliable(&self) -> bool {
        unreachable!()
    }

    fn len(&self) -> Result<u64, SourceError> {
        Ok(u64::try_from(self.bytes.len()).unwrap())
    }

    fn read_at(&self, offset: u64, length: usize) -> Result<Vec<u8>, SourceError> {
        self.requests.lock().unwrap().push((offset, length));
        let start = usize::try_from(offset).unwrap().min(self.bytes.len());
        let end = start.saturating_add(length).min(self.bytes.len());
        Ok(self.bytes[start..end].to_vec())
    }
}

#[test]
fn a_range_is_read_whole() {
    let source = TracingBytesSource {
        bytes: b"hello".to_vec(),
        requests: Mutex::new(Vec::new()),
    };
    assert_eq!(read_range(&source, 1, 3).unwrap(), b"ell".to_vec());
}
