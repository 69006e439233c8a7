use std::io::{Read, Write};

use dpms_sync::channel::{ByteBuffer, ReadOutcome};

/// Feeds an encoder's output through the bounded buffer, taking a few bytes
/// out whenever it is full, as a slow transport would.
struct Pipe {
    buffer: ByteBuffer,
    received: Vec<u8>,
    peak: usize,
}

impl Pipe {
    fn drain_some(&mut self) {
        if let ReadOutcome::Data(chunk) = self.buffer.read(7) {
            self.received.extend_from_slice(&chunk);
        }
    }
}

impl Write for &mut Pipe {
    fn write(&mut self, bytes: &[u8]) -> std::io::Result<usize> {
        if bytes.is_empty() {
            return Ok(0);
        }
        loop {
            let n = self.buffer.write(bytes, 0).expect("not cancelled");
            self.peak = self.peak.max(self.buffer.held());
            if n > 0 {
                return Ok(n);
            }
            self.drain_some();
        }
    }

    fn flush(&mut self) -> std::io::Result<()> {
        Ok(())
    }
}

#[test]
fn archive_round_trip_through_buffer() {
    let files: Vec<(String, Vec<u8>)> = vec![
        ("a.txt".to_string(), b"hello".to_vec()),
        ("dir/b.bin".to_string(), (0..5000u32).map(|i| (i * 7 % 256) as u8).collect()),
        ("dir/empty".to_string(), Vec::new()),
    ];
    let mut pipe = Pipe { buffer: ByteBuffer::new(64), received: Vec::new(), peak: 0 };
    {
        let gz = flate2::write::GzEncoder::new(&mut pipe, flate2::Compression::default());
        let mut builder = tar::Builder::new(gz);
        for (path, data) in &files {
            let mut header = tar::Header::new_gnu();
            header.set_size(data.len() as u64);
            header.set_mode(0o644);
            header.set_cksum();
            builder.append_data(&mut header, path, &data[..]).unwrap();
        }
        builder.into_inner().unwrap().finish().unwrap();
    }
    pipe.buffer.close_writer();
    loop {
        match pipe.buffer.read(7) {
            ReadOutcome::Data(chunk) => pipe.received.extend_from_slice(&chunk),
            ReadOutcome::End => break,
            ReadOutcome::Empty => panic!("closed buffer reported empty"),
        }
    }
    assert!(pipe.peak <= 64);
    let mut archive = tar::Archive::new(flate2::read::GzDecoder::new(&pipe.received[..]));
    let mut decoded = Vec::new();
    for entry in archive.entries().unwrap() {
        let mut entry = entry.unwrap();
        let path = entry.path().unwrap().to_string_lossy().into_owned();
        let mut data = Vec::new();
        entry.read_to_end(&mut data).unwrap();
        decoded.push((path, data));
    }
    assert_eq!(decoded, files);
}
