//! The last-error state of the dynamic loader bridge: the message of the
//! most recent failure, kept as a C string, handed out once.
use vstd::prelude::*;
use vstd::utf8::encode_utf8;
use vstd::string::{is_ascii, is_ascii_spec_bytes, StringSliceAdditionalSpecFns};
use crate::bytes::{find_byte_from, find_byte, lemma_find_byte_props, push_all};

verus! {

/// The bytes of an ASCII text.
pub open spec fn ascii(s: Seq<char>) -> Seq<u8> {
    s.map_values(|c: char| c as u8)
}

/// The bytes of `s` before its first NUL byte.
pub open spec fn until_nul(s: Seq<u8>) -> Seq<u8> {
    s.take(find_byte_from(s, 0u8, 0))
}

/// The last error as plain values: its message, and whether it is still to
/// be handed out.
pub struct LastErrorView {
    pub message: Seq<u8>,
    pub pending: bool,
}

/// The state after an error with text `bytes` is recorded.
pub open spec fn recorded(bytes: Seq<u8>) -> LastErrorView {
    LastErrorView { message: until_nul(bytes), pending: true }
}

/// The state after the error is cleared or handed out.
pub open spec fn consumed(v: LastErrorView) -> LastErrorView {
    LastErrorView { message: v.message, pending: false }
}

/// The message of the most recent error, kept NUL-terminated for C, and
/// whether it has been handed out since.
pub struct LastError {
    buffer: Vec<u8>,
    consumed: bool,
}

impl View for LastError {
    type V = LastErrorView;

    closed spec fn view(&self) -> LastErrorView {
        LastErrorView { message: self.buffer@.drop_last(), pending: !self.consumed }
    }
}

impl LastError {
    /// The buffer is a C string: one NUL byte, at its end.
    #[verifier::type_invariant]
    closed spec fn is_c_string(&self) -> bool {
        &&& self.buffer@.len() >= 1
        &&& self.buffer@.last() == 0u8
        &&& forall|i: int| 0 <= i < self.buffer@.len() - 1 ==> self.buffer@[i] != 0u8
    }

    /// No error to hand out, and an empty message.
    pub fn new() -> (r: LastError)
        ensures
            r@ == (LastErrorView { message: Seq::empty(), pending: false }),
    {
        let mut buffer: Vec<u8> = Vec::new();
        buffer.push(0u8);
        let r = LastError { buffer, consumed: true };
        assert(r@.message =~= Seq::<u8>::empty());
        r
    }

    /// Records an error whose text is `bytes` up to its first NUL byte; it
    /// is handed out by the next `take_ptr`.
    pub fn set_bytes(&mut self, bytes: &[u8])
        ensures
            final(self)@ == recorded(bytes@),
    {
        let terminator = match find_byte(bytes, 0u8) {
            Some(p) => p,
            None => bytes.len(),
        };
        proof {
            lemma_find_byte_props(bytes@, 0u8, 0);
        }
        proof {
            use_type_invariant(&*self);
        }
        let mut buffer: Vec<u8> = Vec::new();
        push_all(&mut buffer, &bytes[0..terminator]);
        buffer.push(0u8);
        assert(buffer@.drop_last() =~= until_nul(bytes@));
        self.buffer = buffer;
        self.consumed = false;
    }

    /// Drops the pending error, if any; the message stays.
    pub fn clear(&mut self)
        ensures
            final(self)@ == consumed(old(self)@),
    {
        proof {
            use_type_invariant(&*self);
        }
        self.consumed = true;
    }

    /// Hands out the pending error: `true` when there is one (its text is
    /// then `c_str`), after which none is pending; `false` when none is.
    pub fn take_ptr(&mut self) -> (r: bool)
        ensures
            r == old(self)@.pending,
            final(self)@ == consumed(old(self)@),
    {
        proof {
            use_type_invariant(&*self);
        }
        if self.consumed || self.buffer.len() == 0 {
            false
        } else {
            self.consumed = true;
            true
        }
    }

    /// The message as a C string: its bytes and a terminating NUL.
    pub fn c_str(&self) -> (r: &[u8])
        ensures
            r@ == self@.message.push(0u8),
            forall|i: int| 0 <= i < self@.message.len() ==> self@.message[i] != 0u8,
    {
        proof {
            use_type_invariant(self);
        }
        assert(self.buffer@ =~= self.buffer@.drop_last().push(0u8));
        self.buffer.as_slice()
    }
}

impl Default for LastError {
    fn default() -> (r: LastError)
        ensures
            r@ == (LastErrorView { message: Seq::empty(), pending: false }),
    {
        LastError::new()
    }
}

/// Records an error with text `bytes` (see `LastError::set_bytes`).
pub fn record_error_bytes(state: &mut LastError, bytes: &[u8])
    ensures
        final(state)@ == recorded(bytes@),
{
    state.set_bytes(bytes);
}

/// Records an error with text `message`.
pub fn record_error_string(state: &mut LastError, message: &str)
    ensures
        final(state)@ == recorded(message.spec_bytes()),
{
    record_error_bytes(state, message.as_bytes());
}

/// The text recorded for a missing or closed handle.
pub open spec fn invalid_handle_message() -> Seq<u8> {
    ascii("dynlib: invalid handle"@)
}

/// The text recorded for a missing symbol name.
pub open spec fn null_symbol_message() -> Seq<u8> {
    ascii("dynlib: symbol name is null"@)
}

proof fn lemma_ascii_no_nul(s: Seq<u8>)
    requires
        forall|i: int| 0 <= i < s.len() ==> s[i] != 0u8,
    ensures
        until_nul(s) == s,
{
    lemma_find_byte_props(s, 0u8, 0);
    if find_byte_from(s, 0u8, 0) < s.len() {
        assert(s[find_byte_from(s, 0u8, 0)] == 0u8);
    }
    assert(s.take(s.len() as int) =~= s);
}

/// Records that a handle was missing or already closed.
pub fn record_invalid_handle(state: &mut LastError)
    ensures
        final(state)@ == (LastErrorView { message: invalid_handle_message(), pending: true }),
{
    let text = "dynlib: invalid handle";
    proof {
        reveal_strlit("dynlib: invalid handle");
        is_ascii_spec_bytes(text);
    }
    assert(is_ascii(text));
    assert(text.spec_bytes() =~= invalid_handle_message());
    proof {
        lemma_ascii_no_nul(invalid_handle_message());
    }
    record_error_string(state, text);
}

/// Records that a symbol was looked up without a name.
pub fn record_null_symbol(state: &mut LastError)
    ensures
        final(state)@ == (LastErrorView { message: null_symbol_message(), pending: true }),
{
    let text = "dynlib: symbol name is null";
    proof {
        reveal_strlit("dynlib: symbol name is null");
        is_ascii_spec_bytes(text);
    }
    assert(is_ascii(text));
    assert(text.spec_bytes() =~= null_symbol_message());
    proof {
        lemma_ascii_no_nul(null_symbol_message());
    }
    record_error_string(state, text);
}

/// The error type of the `libloading` crate, carried through as it is.
#[verifier::external_type_specification]
#[verifier::external_body]
pub struct ExLibloadingError(libloading::Error);

/// The text that the `Display` impl of `libloading::Error` writes for an
/// error: for a failed `dlopen`, `dlsym` or `dlclose`, the description the
/// system loader gave, which the error value holds; otherwise a fixed
/// sentence naming the failed call. It depends on the error value alone.
pub uninterp spec fn libloading_error_text(err: libloading::Error) -> Seq<char>;

/// The text of a `libloading::Error` (its `to_string`), which is
/// `libloading_error_text` of the error.
#[verifier::external_body]
fn loader_error_text(err: &libloading::Error) -> (r: String)
    ensures
        r@ == libloading_error_text(*err),
{
    err.to_string()
}

/// Records a failure reported by the system loader, with the text of its
/// error in UTF-8.
pub fn record_libloading_error(state: &mut LastError, err: libloading::Error)
    ensures
        final(state)@ == recorded(encode_utf8(libloading_error_text(err))),
{
    let text = loader_error_text(&err);
    let message = text.as_str();
    record_error_string(state, message);
}

/// Marks the last error as handed out, after a call that succeeded.
pub fn clear_error(state: &mut LastError)
    ensures
        final(state)@ == consumed(old(state)@),
{
    state.clear();
}

/// After an error is recorded, it is handed out once with its text up to the
/// first NUL byte, and then no more until the next error.
pub proof fn lemma_error_handed_out_once(bytes: Seq<u8>)
    ensures
        recorded(bytes).pending,
        recorded(bytes).message == until_nul(bytes),
        !consumed(recorded(bytes)).pending,
        consumed(recorded(bytes)).message == until_nul(bytes),
        consumed(consumed(recorded(bytes))) == consumed(recorded(bytes)),
        forall|i: int| 0 <= i < until_nul(bytes).len() ==> until_nul(bytes)[i] != 0u8,
{
    lemma_find_byte_props(bytes, 0u8, 0);
}

} // verus!
