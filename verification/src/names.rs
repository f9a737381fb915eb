//! The name under which a process is shown.

use crate::text::{
    base_name, basename, law_base_name_is_the_leaf, law_base_name_keeps_something,
    law_signed_decimal_is_read_back, lemma_decimal_digits, push_signed, signed_decimal,
};
use crate::reading::signed_worth;
use vstd::prelude::*;
use vstd::utf8::{decode_utf8, valid_utf8};

verus! {

/// The text that the standard library makes of bytes that may not be valid UTF-8.
pub uninterp spec fn utf8_lossy(bytes: Seq<u8>) -> Seq<char>;

/// Calls `String::from_utf8_lossy`: valid UTF-8 is decoded, and of other bytes each invalid
/// stretch becomes a replacement character. A zero byte is the only encoding of the character
/// NUL, so without one the text has none. How many characters an invalid stretch becomes is left
/// to the name of the result.
#[verifier::external_body]
fn from_utf8_lossy(bytes: &[u8]) -> (r: String)
    ensures
        r@ == utf8_lossy(bytes@),
        valid_utf8(bytes@) ==> r@ == decode_utf8(bytes@),
        !valid_utf8(bytes@) ==> r@.contains('\u{FFFD}'),
        !bytes@.contains(0u8) ==> !r@.contains('\0'),
{
    String::from_utf8_lossy(bytes).into_owned()
}

/// The bytes in front of the first zero byte, all of them if there is none.
pub open spec fn until_nul(buf: Seq<u8>) -> Seq<u8>
    decreases buf.len(),
{
    if buf.len() == 0 || buf[0] == 0 {
        Seq::empty()
    } else {
        seq![buf[0]] + until_nul(buf.drop_first())
    }
}

proof fn lemma_until_nul(buf: Seq<u8>, end: int)
    requires
        0 <= end <= buf.len(),
        forall|i: int| 0 <= i < end ==> buf[i] != 0,
        end < buf.len() ==> buf[end] == 0,
    ensures
        until_nul(buf) == buf.take(end),
    decreases end,
{
    if end == 0 {
        assert(buf.take(0) =~= Seq::<u8>::empty());
    } else {
        lemma_until_nul(buf.drop_first(), end - 1);
        assert(buf.take(end) =~= seq![buf[0]] + buf.drop_first().take(end - 1));
    }
}

/// Reads a string that a zero byte ends.
pub fn cstr_buf(buf: &[u8]) -> (r: String)
    ensures
        r@ == utf8_lossy(until_nul(buf@)),
        valid_utf8(until_nul(buf@)) ==> r@ == decode_utf8(until_nul(buf@)),
        !valid_utf8(until_nul(buf@)) ==> r@.contains('\u{FFFD}'),
        r@.len() == 0 <==> until_nul(buf@).len() == 0,
        !r@.contains('\0'),
{
    let mut end: usize = 0;
    while end < buf.len() && buf[end] != 0
        invariant
            end <= buf.len(),
            forall|i: int| 0 <= i < end ==> buf@[i] != 0,
        decreases buf.len() - end,
    {
        end = end + 1;
    }
    proof {
        lemma_until_nul(buf@, end as int);
        assert(buf@.subrange(0, end as int) =~= buf@.take(end as int));
    }
    from_utf8_lossy(&buf[0..end])
}

/// What a call that fills a buffer and returns a length has put into it: nothing unless the
/// length is positive and within the buffer.
pub open spec fn filled(n: i32, buf: Seq<u8>) -> Seq<u8> {
    if 0 < n <= buf.len() {
        until_nul(buf.take(n as int))
    } else {
        Seq::empty()
    }
}

/// Reads what a call has put into a buffer, if that is anything.
fn filled_text(n: i32, buf: &[u8]) -> (r: Option<String>)
    ensures
        r is Some <==> filled(n, buf@).len() > 0,
        r matches Some(s) ==> {
            &&& s@ == utf8_lossy(filled(n, buf@))
            &&& s@.len() > 0
            &&& !s@.contains('\0')
            &&& valid_utf8(filled(n, buf@)) ==> s@ == decode_utf8(filled(n, buf@))
        },
{
    if n > 0 && n as usize <= buf.len() {
        assert(buf@.subrange(0, n as int) =~= buf@.take(n as int));
        let s = cstr_buf(&buf[0..n as usize]);
        if s.as_str().is_empty() {
            None
        } else {
            Some(s)
        }
    } else {
        None
    }
}

/// The name of a process by the path of its program.
pub fn name_of_path(path: &str) -> (r: Option<String>)
    ensures
        r is Some <==> path@.len() > 0,
        r matches Some(s) ==> s@ == base_name(path@) && s@.len() > 0,
        r matches Some(s) ==> (!path@.contains('\0') ==> !s@.contains('\0')),
{
    if path.is_empty() {
        None
    } else {
        proof {
            law_base_name_keeps_something(path@);
            law_base_name_is_the_leaf(path@);
            let leaf = base_name(path@);
            if leaf.contains('\0') {
                let i = choose|i: int| 0 <= i < leaf.len() && leaf[i] == '\0';
                assert(path@[path@.len() - leaf.len() + i] == '\0');
            }
        }
        Some(basename(path).to_owned())
    }
}

/// The name of a process by the reply to the request for its path: the length `n` and the
/// buffer. Without one, the process has to be asked for its name.
pub fn name_by_path(n: i32, buf: &[u8]) -> (r: Option<String>)
    ensures
        r is Some <==> filled(n, buf@).len() > 0,
        r matches Some(s) ==> {
            &&& s@ == base_name(utf8_lossy(filled(n, buf@)))
            &&& s@.len() > 0
            &&& !s@.contains('\0')
            &&& valid_utf8(filled(n, buf@)) ==> s@ == base_name(decode_utf8(filled(n, buf@)))
        },
{
    match filled_text(n, buf) {
        Some(path) => name_of_path(path.as_str()),
        None => None,
    }
}

/// The name of a process of which only the number is known.
pub open spec fn pid_text(pid: i32) -> Seq<char> {
    "pid "@ + signed_decimal(pid as int)
}

/// Names a process by its number.
pub fn pid_name(pid: i32) -> (r: String)
    ensures
        r@ == pid_text(pid),
        r@.len() > 0,
        !r@.contains('\0'),
{
    proof {
        reveal_strlit("pid ");
        lemma_decimal_digits((if pid < 0 {
            -pid
        } else {
            pid as int
        }) as nat);
    }
    let mut out = "pid ".to_owned();
    push_signed(&mut out, pid);
    out
}

/// The name of a process that has no path, by the reply to the request for its name: the
/// length `n` and the buffer.
pub fn name_by_request(pid: i32, n: i32, buf: &[u8]) -> (r: String)
    ensures
        filled(n, buf@).len() > 0 ==> r@ == utf8_lossy(filled(n, buf@)),
        filled(n, buf@).len() > 0 && valid_utf8(filled(n, buf@)) ==> r@ == decode_utf8(
            filled(n, buf@),
        ),
        filled(n, buf@).len() == 0 ==> r@ == pid_text(pid),
        r@.len() > 0,
        !r@.contains('\0'),
{
    match filled_text(n, buf) {
        Some(name) => name,
        None => pid_name(pid),
    }
}

/// What has to be done next to learn the name of a process.
#[derive(Debug, PartialEq, Eq)]
pub enum NameStep {
    /// Ask for its path with `proc_pidpath`.
    AskPath,
    /// Ask for its name with `proc_name`.
    AskName,
    /// Nothing.
    Done { name: String },
}

impl NameStep {
    /// Takes the answer of the kernel for the process `pid`: the length `n` and the buffer. The
    /// name is found with the second answer at the latest, is never empty and holds no NUL.
    pub fn next(self, pid: i32, n: i32, buf: &[u8]) -> (r: NameStep)
        ensures
            self is AskPath && filled(n, buf@).len() == 0 ==> r is AskName,
            self is AskPath && filled(n, buf@).len() > 0 ==> {
                &&& r is Done
                &&& r->name@ == base_name(utf8_lossy(filled(n, buf@)))
                &&& valid_utf8(filled(n, buf@)) ==> r->name@ == base_name(
                    decode_utf8(filled(n, buf@)),
                )
                &&& r->name@.len() > 0
                &&& !r->name@.contains('\0')
            },
            self is AskName ==> {
                &&& r is Done
                &&& filled(n, buf@).len() == 0 ==> r->name@ == pid_text(pid)
                &&& filled(n, buf@).len() > 0 ==> r->name@ == utf8_lossy(filled(n, buf@))
                &&& filled(n, buf@).len() > 0 && valid_utf8(filled(n, buf@)) ==> r->name@
                    == decode_utf8(filled(n, buf@))
                &&& r->name@.len() > 0
                &&& !r->name@.contains('\0')
            },
            self is Done ==> r == self,
    {
        match self {
            NameStep::AskPath => match name_by_path(n, buf) {
                Some(name) => NameStep::Done { name },
                None => NameStep::AskName,
            },
            NameStep::AskName => NameStep::Done { name: name_by_request(pid, n, buf) },
            done => done,
        }
    }
}

/// A string ends in front of its first zero byte, or with its buffer.
pub proof fn law_string_ends_with_the_first_zero(buf: Seq<u8>)
    ensures
        ({
            let s = until_nul(buf);
            &&& s.len() <= buf.len()
            &&& s == buf.take(s.len() as int)
            &&& !s.contains(0u8)
            &&& s.len() < buf.len() ==> buf[s.len() as int] == 0
        }),
    decreases buf.len(),
{
    let s = until_nul(buf);
    if buf.len() == 0 || buf[0] == 0 {
        assert(s =~= buf.take(0));
    } else {
        let rest = buf.drop_first();
        let t = until_nul(rest);
        law_string_ends_with_the_first_zero(rest);
        assert(s =~= buf.take(s.len() as int));
        assert forall|i: int| 0 <= i < s.len() implies s[i] != 0 by {
            if i > 0 {
                assert(s[i] == t[i - 1]);
                assert(t.contains(t[i - 1]));
            }
        }
        if s.len() < buf.len() {
            assert(buf[s.len() as int] == rest[t.len() as int]);
        }
    }
}

/// What a call has put into a buffer is the string in the bytes that it says it has written, and
/// nothing if it says that it has written none or more than there is room for.
pub proof fn law_reply_is_the_string_written(n: i32, buf: Seq<u8>)
    ensures
        ({
            let s = filled(n, buf);
            &&& n <= 0 || n > buf.len() ==> s.len() == 0
            &&& 0 < n <= buf.len() ==> {
                &&& s.len() <= n
                &&& s == buf.take(s.len() as int)
                &&& !s.contains(0u8)
                &&& s.len() < n ==> buf[s.len() as int] == 0
            }
        }),
{
    if 0 < n <= buf.len() {
        let part = buf.take(n as int);
        law_string_ends_with_the_first_zero(part);
        let s = filled(n, buf);
        assert(part.take(s.len() as int) =~= buf.take(s.len() as int));
    }
}

/// A process without a name is told by its number.
pub proof fn law_pid_text_tells_the_number(pid: i32)
    ensures
        pid_text(pid).len() > 4,
        pid_text(pid).take(4) == seq!['p', 'i', 'd', ' '],
        signed_worth(pid_text(pid).skip(4)) == pid,
{
    reveal_strlit("pid ");
    law_signed_decimal_is_read_back(pid as int);
    crate::text::lemma_signed_decimal_is_a_word(pid as int);
    assert(pid_text(pid).take(4) =~= seq!['p', 'i', 'd', ' ']);
    assert(pid_text(pid).skip(4) =~= signed_decimal(pid as int));
}

} // verus!
