use qfunction_context::context::{BackendFault, Lifecycle, QFunctionContext, Request, Token};
use std::cell::RefCell;

/// A stand-in for the backend that keeps a record of what it was asked.
struct Backend {
    next: usize,
    failing: bool,
    live: Vec<usize>,
    viewed: Vec<usize>,
    released: Vec<usize>,
}

impl Backend {
    fn new() -> Backend {
        Backend { next: 0x1000, failing: false, live: Vec::new(), viewed: Vec::new(), released: Vec::new() }
    }

    fn failing() -> Backend {
        let mut backend = Backend::new();
        backend.failing = true;
        backend
    }

    /// Answers an allocation request with a status and the token's number.
    fn allocate(&mut self) -> (i32, usize) {
        if self.failing {
            return (-2, 0);
        }
        self.next += 0x40;
        self.live.push(self.next);
        (0, self.next)
    }

    /// Performs a request and returns what a view wrote, cut at the buffer's
    /// length.
    fn perform(&mut self, request: Request) -> Vec<u8> {
        match request {
            Request::View { token, buffer_length } => {
                assert!(self.live.contains(&token.raw), "view of a token that is not live");
                self.viewed.push(token.raw);
                let mut written =
                    format!("CeedQFunctionContext\n  Context Id: {:#x}\n  Context Data Size: 0\n", token.raw)
                        .into_bytes();
                written.truncate(buffer_length);
                written
            }
            Request::Release { token } => {
                assert!(self.live.contains(&token.raw), "release of a token that is not live");
                self.live.retain(|&raw| raw != token.raw);
                self.released.push(token.raw);
                Vec::new()
            }
        }
    }
}

/// Owns a handle for a scope and lets go of it when the scope ends.
struct Scoped<'a> {
    handle: QFunctionContext,
    backend: &'a RefCell<Backend>,
}

impl<'a> Scoped<'a> {
    fn create(backend: &'a RefCell<Backend>) -> Result<Scoped<'a>, BackendFault> {
        let (status, raw) = backend.borrow_mut().allocate();
        let handle = QFunctionContext::create(status, raw)?;
        Ok(Scoped { handle, backend })
    }

    fn render(&self, buffer_length: usize) -> String {
        assert!(matches!(self.handle.state(), Lifecycle::Valid { .. }));
        let request = self.handle.view_request(buffer_length);
        let captured = self.backend.borrow_mut().perform(request);
        self.handle.render(&captured)
    }
}

impl Drop for Scoped<'_> {
    fn drop(&mut self) {
        if let Some(request) = self.handle.release() {
            self.backend.borrow_mut().perform(request);
        }
    }
}

fn valid(raw: usize) -> QFunctionContext {
    QFunctionContext::create(0, raw).unwrap()
}

#[test]
fn create_owns_the_issued_token() {
    let handle = QFunctionContext::create(0, 0x2A40).unwrap();
    assert_eq!(handle.state(), Lifecycle::Valid { token: Token { raw: 0x2A40 } });
}

#[test]
fn create_fails_with_the_backends_status() {
    assert_eq!(QFunctionContext::create(-2, 0).unwrap_err(), BackendFault::Failed { status: -2 });
    assert_eq!(QFunctionContext::create(1, 0x2A40).unwrap_err(), BackendFault::Failed { status: 1 });
    assert_eq!(QFunctionContext::create(i32::MIN, 7).unwrap_err(), BackendFault::Failed { status: i32::MIN });
}

#[test]
fn create_fails_when_no_token_was_issued() {
    assert_eq!(QFunctionContext::create(0, 0).unwrap_err(), BackendFault::NoToken);
}

#[test]
fn view_request_presents_the_handles_token() {
    let handle = valid(0x2A40);
    assert_eq!(
        handle.view_request(4096),
        Request::View { token: Token { raw: 0x2A40 }, buffer_length: 4096 }
    );
    assert_eq!(handle.view_request(0), Request::View { token: Token { raw: 0x2A40 }, buffer_length: 0 });
    assert_eq!(handle.state(), Lifecycle::Valid { token: Token { raw: 0x2A40 } });
}

#[test]
fn render_is_the_text_of_the_capture() {
    let handle = valid(9);
    assert_eq!(handle.render(b"CeedQFunctionContext\n  Context Data Size: 8\n"),
        "CeedQFunctionContext\n  Context Data Size: 8\n");
    assert_eq!(handle.render(b""), "");
    assert_eq!(handle.state(), Lifecycle::Valid { token: Token { raw: 9 } });
}

#[test]
fn render_replaces_what_is_not_text() {
    let handle = valid(9);
    assert_eq!(handle.render(b"Size: \xFF8 \xE2\x82\xAC\n"), "Size: \u{FFFD}8 \u{20AC}\n");
    assert_eq!(handle.render(b"Labeled \xC3 field: \xF0\x9F\x98\x80\n"), "Labeled \u{FFFD} field: \u{1F600}\n");
}

#[test]
fn release_asks_once_for_the_handles_token() {
    let mut handle = valid(0x2A40);
    assert_eq!(handle.release(), Some(Request::Release { token: Token { raw: 0x2A40 } }));
    assert_eq!(handle.state(), Lifecycle::Released);
}

#[test]
fn release_of_a_released_handle_asks_nothing() {
    let mut handle = valid(0x2A40);
    assert!(handle.release().is_some());
    for _ in 0..5 {
        assert_eq!(handle.release(), None);
        assert_eq!(handle.state(), Lifecycle::Released);
    }
}

#[test]
fn one_release_however_often_rendered() {
    for renders in [0usize, 1, 2, 17] {
        let mut handle = valid(0x77);
        let mut seen = Vec::new();
        for n in 0..renders {
            seen.push(handle.view_request(n));
            assert_eq!(handle.render(b"x"), "x");
        }
        for _ in 0..3 {
            if let Some(request) = handle.release() {
                seen.push(request);
            }
        }
        let releases = seen.iter().filter(|r| matches!(r, Request::Release { .. })).count();
        assert_eq!(releases, 1);
        assert_eq!(seen.len(), renders + 1);
        assert_eq!(seen[renders], Request::Release { token: Token { raw: 0x77 } });
        for (n, request) in seen.iter().take(renders).enumerate() {
            assert_eq!(*request, Request::View { token: Token { raw: 0x77 }, buffer_length: n });
        }
    }
}

#[test]
fn renders_are_independent() {
    let handle = valid(3);
    let mut buffer = b"first capture".to_vec();
    let first = handle.render(&buffer);
    buffer.clear();
    buffer.extend_from_slice(b"second \xFF");
    let second = handle.render(&buffer);
    drop(buffer);
    assert_eq!(first, "first capture");
    assert_eq!(second, "second \u{FFFD}");
}

#[test]
fn snapshot_then_drop_releases_once() {
    let backend = RefCell::new(Backend::new());
    {
        let context = Scoped::create(&backend).unwrap();
        let text = context.render(4096);
        assert!(!text.is_empty());
        assert!(text.contains("CeedQFunctionContext"));
        assert!(text.contains("Context Data Size"));
        assert!(backend.borrow().released.is_empty());
    }
    let backend = backend.into_inner();
    assert_eq!(backend.released, vec![0x1040]);
    assert_eq!(backend.viewed, vec![0x1040]);
    assert!(backend.live.is_empty());
}

#[test]
fn drop_without_render_releases_once() {
    let backend = RefCell::new(Backend::new());
    {
        let _context = Scoped::create(&backend).unwrap();
    }
    let backend = backend.into_inner();
    assert_eq!(backend.released, vec![0x1040]);
    assert!(backend.viewed.is_empty());
}

#[test]
fn two_handles_release_their_own_tokens() {
    let backend = RefCell::new(Backend::new());
    let first = Scoped::create(&backend).unwrap();
    let second = Scoped::create(&backend).unwrap();
    let first_text = first.render(4096);
    let second_text = second.render(4096);
    assert!(first_text.contains("Context Id: 0x1040"));
    assert!(second_text.contains("Context Id: 0x1080"));
    assert_ne!(first_text, second_text);
    drop(first);
    drop(second);
    let backend = backend.into_inner();
    assert_eq!(backend.released, vec![0x1040, 0x1080]);
    assert!(backend.live.is_empty());
}

#[test]
fn two_handles_dropped_in_the_other_order() {
    let backend = RefCell::new(Backend::new());
    let first = Scoped::create(&backend).unwrap();
    let second = Scoped::create(&backend).unwrap();
    assert_ne!(first.render(64), second.render(64));
    drop(second);
    drop(first);
    let backend = backend.into_inner();
    assert_eq!(backend.released, vec![0x1080, 0x1040]);
    assert!(backend.live.is_empty());
}

#[test]
fn allocation_fault_makes_no_handle_and_no_release() {
    let backend = RefCell::new(Backend::failing());
    {
        let made = Scoped::create(&backend);
        assert!(made.is_err());
        assert_eq!(made.err(), Some(BackendFault::Failed { status: -2 }));
    }
    let backend = backend.into_inner();
    assert!(backend.released.is_empty());
    assert!(backend.viewed.is_empty());
    assert!(backend.live.is_empty());
}

fn fails_half_way(backend: &RefCell<Backend>) -> Result<String, String> {
    let context = Scoped::create(backend).map_err(|_| String::from("no context"))?;
    let text = context.render(4096);
    if text.contains("Context Data Size: 0") {
        return Err(String::from("empty context"));
    }
    Ok(text)
}

#[test]
fn early_exit_still_releases_once() {
    let backend = RefCell::new(Backend::new());
    assert_eq!(fails_half_way(&backend), Err(String::from("empty context")));
    let backend = backend.into_inner();
    assert_eq!(backend.released, vec![0x1040]);
    assert!(backend.live.is_empty());
}

#[test]
fn a_short_buffer_cuts_the_view_on_the_backends_side() {
    let backend = RefCell::new(Backend::new());
    let context = Scoped::create(&backend).unwrap();
    assert_eq!(context.render(4), "Ceed");
    assert_eq!(context.render(0), "");
}

#[test]
fn a_released_token_is_never_presented_again() {
    let backend = RefCell::new(Backend::new());
    let mut context = Scoped::create(&backend).unwrap();
    let request = context.handle.release().unwrap();
    backend.borrow_mut().perform(request);
    assert_eq!(context.handle.state(), Lifecycle::Released);
    assert_eq!(context.handle.release(), None);
    drop(context);
    let backend = backend.into_inner();
    assert_eq!(backend.released, vec![0x1040]);
    assert_eq!(backend.viewed, Vec::<usize>::new());
}
