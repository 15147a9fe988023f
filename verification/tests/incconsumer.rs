use gameshell::incconsumer::{Consumption, IncConsumer, Process, Run, Validation};

#[test]
fn simple() {
    #[derive(Default)]
    struct Consumer {
        pub consumption_count: usize,
        pub validation_count: usize,
        pub process_count: usize,
    }

    impl IncConsumer for Consumer {
        fn consume(&mut self, _: &mut [u8]) -> Consumption {
            self.consumption_count += 1;
            Consumption::Stop
        }
        fn validate(&mut self, _: u8) -> Validation {
            self.validation_count += 1;
            Validation::Ready
        }
        fn process(&mut self, _: &[u8]) -> Process {
            self.process_count += 1;
            Process::Continue
        }
    }

    let mut consumed = Consumer::default();
    let buffer = &mut [0u8; 0];
    consumed.run(buffer);

    assert_eq![1, consumed.consumption_count];
    assert_eq![0, consumed.validation_count];
    assert_eq![0, consumed.process_count];
}

#[test]
fn stop_at_validation() {
    #[derive(Default)]
    struct Consumer {
        pub consumption_count: usize,
        pub validation_count: usize,
        pub process_count: usize,
    }

    impl IncConsumer for Consumer {
        fn consume(&mut self, _: &mut [u8]) -> Consumption {
            self.consumption_count += 1;
            Consumption::Consumed(1)
        }
        fn validate(&mut self, _: u8) -> Validation {
            self.validation_count += 1;
            Validation::Stop
        }
        fn process(&mut self, _: &[u8]) -> Process {
            self.process_count += 1;
            Process::Continue
        }
    }

    let mut consumed = Consumer::default();
    let buffer = &mut [0u8; 1];
    consumed.run(buffer);

    assert_eq![1, consumed.consumption_count];
    assert_eq![1, consumed.validation_count];
    assert_eq![0, consumed.process_count];
}

struct Exact {
    bytes: usize,
    seen: usize,
    processed: Option<usize>,
}

impl IncConsumer for Exact {
    fn consume(&mut self, _: &mut [u8]) -> Consumption {
        if self.bytes == 0 {
            Consumption::Stop
        } else {
            Consumption::Consumed(self.bytes)
        }
    }
    fn validate(&mut self, _: u8) -> Validation {
        self.seen += 1;
        if self.seen == self.bytes {
            Validation::Ready
        } else {
            Validation::Unready
        }
    }
    fn process(&mut self, input: &[u8]) -> Process {
        self.processed = Some(input.len());
        Process::Stop
    }
}

#[test]
fn consuming_bytes_within_bounds_never_fails() {
    for bytes in [0usize, 1, 2, 17, 255, 256, 4096, 65535] {
        let mut consumed = Exact {
            bytes,
            seen: 0,
            processed: None,
        };
        let mut buffer = vec![0u8; bytes];
        consumed.run(&mut buffer);
        if bytes == 0 {
            assert_eq![None, consumed.processed];
        } else {
            assert_eq![Some(bytes), consumed.processed];
        }
    }
}

#[test]
fn a_source_that_claims_too_much_ends_the_run() {
    let mut consumed = Exact {
        bytes: 5,
        seen: 0,
        processed: None,
    };
    let mut buffer = vec![0u8; 4];
    consumed.run(&mut buffer);
    assert_eq![0, consumed.seen];
    assert_eq![None, consumed.processed];
}

/// Feeds a fixed input in chunks and records what is processed.
struct Lines<'i> {
    input: &'i [u8],
    chunk: usize,
    units: Vec<Vec<u8>>,
    full: bool,
}

impl<'i> IncConsumer for Lines<'i> {
    fn consume(&mut self, output: &mut [u8]) -> Consumption {
        if output.is_empty() {
            self.full = true;
            return Consumption::Stop;
        }
        let n = self.chunk.min(output.len()).min(self.input.len());
        if n == 0 {
            return Consumption::Stop;
        }
        output[..n].copy_from_slice(&self.input[..n]);
        self.input = &self.input[n..];
        Consumption::Consumed(n)
    }
    fn validate(&mut self, byte: u8) -> Validation {
        match byte {
            b'\n' => Validation::Ready,
            b'!' => Validation::Discard,
            _ => Validation::Unready,
        }
    }
    fn process(&mut self, input: &[u8]) -> Process {
        self.units.push(input.to_vec());
        Process::Continue
    }
}

#[test]
fn units_are_processed_across_chunks() {
    let mut lines = Lines {
        input: b"ab\ncd!ef\ngh\n",
        chunk: 3,
        units: Vec::new(),
        full: false,
    };
    let mut buffer = [0u8; 8];
    lines.run(&mut buffer);
    assert_eq![
        vec![b"ab\n".to_vec(), b"ef\n".to_vec(), b"gh\n".to_vec()],
        lines.units
    ];
    assert![!lines.full];
}

#[test]
fn a_unit_that_does_not_fit_leaves_no_room() {
    let mut lines = Lines {
        input: b"abcdefgh\n",
        chunk: 3,
        units: Vec::new(),
        full: false,
    };
    let mut buffer = [0u8; 4];
    lines.run(&mut buffer);
    assert![lines.units.is_empty()];
    assert![lines.full];
}
