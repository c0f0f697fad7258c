use pxar::encoder::sync::{Encoder, File};
use pxar::encoder::SeqWrite;
use pxar::{Metadata, PxarVariant};

struct DummyOutput;

impl SeqWrite for DummyOutput {
    fn seq_write(&mut self, _buf: &[u8]) -> Result<usize, std::io::Error> {
        unreachable!();
    }

    fn flush(&mut self) -> Result<(), std::io::Error> {
        unreachable!();
    }
}

/// Assert that `Encoder` is `Send`
#[test]
fn send_test() {
    let test = async {
        let mut encoder = Encoder::new(
            PxarVariant::Unified(DummyOutput),
            &Metadata::dir_builder(0o700).build(),
            None,
        )
        .unwrap();
        {
            encoder
                .create_directory(b"baba", &Metadata::dir_builder(0o700).build())
                .unwrap();
            std::future::ready(()).await;
            let file = encoder
                .create_file(&Metadata::file_builder(0o755).build(), b"abab", 1024)
                .unwrap();
            // both are alive while this waits
            std::future::ready(()).await;
            file.file_offset();
        }
        encoder.finish().unwrap();
    };

    fn test_send<T: Send>(_: T) {}
    test_send(test);

    fn is_send<T: Send>() {}
    is_send::<Encoder<DummyOutput>>();
    is_send::<File<DummyOutput>>();
}
