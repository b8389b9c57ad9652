//! Copies of byte ranges.

use super::bytes::{patched, push_bytes};
use super::error::{invalid, message, outcome, Error, ErrorModel, Result};
use super::COPY_BUF_SIZE;
use crate::text::{decimal, decimal_text, numbered};
use vstd::prelude::*;
use vstd::slice::slice_subrange;
use vstd::string::*;

verus! {

/// The failure of a copy of `len` bytes of which `remaining` are not there.
pub open spec fn copy_cut_short(len: int, remaining: int) -> ErrorModel {
    invalid(
        "unexpected EOF while copying "@ + decimal(len) + " bytes ("@ + decimal(remaining)
            + " remaining)"@,
    )
}

/// `file` with the `len` bytes at `src` moved to `dst` as well.
pub open spec fn moved(file: Seq<u8>, src: int, dst: int, len: int) -> Seq<u8> {
    file.subrange(0, dst) + file.subrange(src, src + len) + file.subrange(
        dst + len,
        file.len() as int,
    )
}

/// Appends the first `len` bytes of `r` to `w`. Where there are fewer, those that are there have
/// been appended when the copy fails.
pub fn stream_copy(r: &[u8], w: &mut Vec<u8>, len: u64) -> (res: Result<()>)
    ensures
        match res {
            Ok(()) => len <= r@.len() && final(w)@ == old(w)@ + r@.take(len as int),
            Err(e) => len > r@.len() && final(w)@ == old(w)@ + r@ && e@ == copy_cut_short(
                len as int,
                len - r@.len(),
            ),
        },
{
    let mut remaining: u64 = len;
    let mut pos: usize = 0;
    assert(w@ =~= old(w)@ + r@.take(0));
    while remaining > 0
        invariant
            pos + remaining == len,
            pos <= r.len(),
            w@ == old(w)@ + r@.take(pos as int),
        decreases remaining,
    {
        let wanted: usize = if remaining > COPY_BUF_SIZE as u64 {
            COPY_BUF_SIZE
        } else {
            remaining as usize
        };
        let n: usize = if wanted > r.len() - pos {
            r.len() - pos
        } else {
            wanted
        };
        if n == 0 {
            assert(r@.take(pos as int) =~= r@);
            let mut s = numbered("unexpected EOF while copying ", len as u128, " bytes (");
            s.append(decimal_text(remaining as u128).as_str());
            s.append(" remaining)");
            return Err(Error::invalid_archive(s.as_str()));
        }
        push_bytes(w, slice_subrange(r, pos, pos + n));
        assert(w@ =~= old(w)@ + r@.take(pos + n));
        pos = pos + n;
        remaining = remaining - n as u64;
    }
    Ok(())
}

/// What a copy within a file makes of the file, and how it ends. Where the file ends before the
/// copy, the bytes up to its end have been copied.
pub open spec fn copy_within_outcome(
    file: Seq<u8>,
    src: int,
    dst: int,
    len: int,
    buf_len: int,
) -> (Seq<u8>, core::result::Result<(), ErrorModel>) {
    if len == 0 || src == dst {
        (file, Ok(()))
    } else if buf_len == 0 {
        (file, Err(message("in-place copy buffer is empty"@)))
    } else if dst > src {
        (file, Err(message("in-place copy invariant violated (dst > src)"@)))
    } else if src + len <= file.len() {
        (moved(file, src, dst, len), Ok(()))
    } else if src < file.len() {
        (
            moved(file, src, dst, file.len() - src),
            Err(invalid("unexpected EOF during in-place copy"@)),
        )
    } else {
        (file, Err(invalid("unexpected EOF during in-place copy"@)))
    }
}

/// Whether a copy within a file has anything to do. It refuses to copy without a buffer or towards
/// the end of the file.
pub fn copy_has_work(src: u64, dst: u64, len: u64, buf_len: usize) -> (r: Result<bool>)
    ensures
        match r {
            Ok(work) => work == (len != 0 && src != dst) && (work ==> buf_len > 0 && dst < src),
            Err(e) => len != 0 && src != dst && (buf_len == 0 || dst > src) && e@ == message(
                if buf_len == 0 {
                    "in-place copy buffer is empty"@
                } else {
                    "in-place copy invariant violated (dst > src)"@
                },
            ),
        },
{
    if len == 0 || src == dst {
        return Ok(false);
    }
    if buf_len == 0 {
        return Err(Error::from("in-place copy buffer is empty"));
    }
    if dst > src {
        return Err(Error::from("in-place copy invariant violated (dst > src)"));
    }
    Ok(true)
}

/// The number of bytes that a copy of `len` bytes asks for next when `done` bytes are copied.
pub fn next_chunk(done: u64, len: u64, buf_len: usize) -> (wanted: usize)
    requires
        done <= len,
    ensures
        wanted == if len - done > buf_len {
            buf_len as int
        } else {
            len - done
        },
{
    if len - done > buf_len as u64 {
        buf_len
    } else {
        (len - done) as usize
    }
}

/// The number of bytes that are copied when `n` more bytes were read and written. None were read
/// where the file has ended.
pub fn after_chunk(done: u64, n: usize) -> (r: Result<u64>)
    requires
        done + n <= u64::MAX,
    ensures
        match r {
            Ok(next) => n > 0 && next == done + n,
            Err(e) => n == 0 && e@ == invalid("unexpected EOF during in-place copy"@),
        },
{
    if n == 0 {
        return Err(Error::invalid_archive("unexpected EOF during in-place copy"));
    }
    Ok(done + n as u64)
}

/// Copies `len` bytes of a file from `src` to `dst`, which lies no further back than `src`.
pub fn copy_within_file(f: &mut Vec<u8>, src: u64, dst: u64, len: u64) -> (r: Result<()>)
    ensures
        (final(f)@, outcome(r)) == copy_within_outcome(
            old(f)@,
            src as int,
            dst as int,
            len as int,
            COPY_BUF_SIZE as int,
        ),
{
    let mut buf: Vec<u8> = Vec::new();
    buf.resize(COPY_BUF_SIZE, 0);
    copy_within_file_with_buf(f, src, dst, len, &mut buf)
}

/// Copies `len` bytes of a file from `src` to `dst`, which lies no further back than `src`, through
/// a buffer. What the buffer holds afterwards is of no use to the caller and left open.
pub fn copy_within_file_with_buf(
    f: &mut Vec<u8>,
    src: u64,
    dst: u64,
    len: u64,
    buf: &mut [u8],
) -> (r: Result<()>)
    ensures
        (final(f)@, outcome(r)) == copy_within_outcome(
            old(f)@,
            src as int,
            dst as int,
            len as int,
            old(buf)@.len() as int,
        ),
        final(buf)@.len() == old(buf)@.len(),
{
    match copy_has_work(src, dst, len, buf.len()) {
        Ok(true) => {},
        Ok(false) => return Ok(()),
        Err(e) => return Err(e),
    }
    let total: u64 = f.len() as u64;
    if src >= total {
        return Err(Error::invalid_archive("unexpected EOF during in-place copy"));
    }
    let mut done: u64 = 0;
    assert(f@ =~= moved(f@, src as int, dst as int, 0));
    while done < len
        invariant
            len > 0,
            done <= len,
            dst < src < total,
            buf@.len() == old(buf)@.len(),
            buf@.len() > 0,
            total == old(f)@.len(),
            f@.len() == total,
            src + done <= total,
            f@ == moved(old(f)@, src as int, dst as int, done as int),
        decreases len - done,
    {
        let left: u64 = total - src - done;
        let wanted: usize = next_chunk(done, len, buf.len());
        let n: usize = if wanted as u64 > left {
            left as usize
        } else {
            wanted
        };
        let next: u64 = match after_chunk(done, n) {
            Ok(next) => next,
            Err(e) => return Err(e),
        };
        load(f, (src + done) as usize, buf, n);
        store(f, (dst + done) as usize, buf, n);
        assert(f@ =~= moved(old(f)@, src as int, dst as int, done + n)) by {
            let before = moved(old(f)@, src as int, dst as int, done as int);
            assert(before.subrange(src + done, src + done + n) =~= old(f)@.subrange(
                src + done,
                src + done + n,
            ));
        }
        done = next;
    }
    Ok(())
}

/// Reads `n` bytes of a file into a buffer.
fn load(f: &Vec<u8>, src: usize, buf: &mut [u8], n: usize)
    requires
        src + n <= f.len(),
        n <= old(buf).len(),
    ensures
        final(buf)@.len() == old(buf)@.len(),
        final(buf)@.take(n as int) == f@.subrange(src as int, src + n),
{
    let mut i: usize = 0;
    while i < n
        invariant
            i <= n,
            src + n <= f.len(),
            n <= buf@.len(),
            buf@.len() == old(buf)@.len(),
            forall|j: int| 0 <= j < i ==> buf@[j] == f@[src + j],
        decreases n - i,
    {
        buf[i] = f[src + i];
        i += 1;
    }
    assert(buf@.take(n as int) =~= f@.subrange(src as int, src + n));
}

/// Writes the first `n` bytes of a buffer to a file.
pub(crate) fn store(f: &mut Vec<u8>, dst: usize, buf: &[u8], n: usize)
    requires
        dst + n <= old(f).len(),
        n <= buf.len(),
    ensures
        final(f)@ == patched(old(f)@, dst as int, buf@.take(n as int)),
{
    let mut i: usize = 0;
    while i < n
        invariant
            i <= n,
            dst + n <= f.len(),
            n <= buf@.len(),
            f@.len() == old(f)@.len(),
            forall|j: int| 0 <= j < i ==> f@[dst + j] == buf@[j],
            forall|j: int|
                0 <= j < f@.len() && !(dst <= j < dst + i) ==> f@[j] == old(f)@[j],
        decreases n - i,
    {
        f.set(dst + i, buf[i]);
        i += 1;
    }
    assert(f@ =~= patched(old(f)@, dst as int, buf@.take(n as int)));
}

/// A copy within a file succeeds exactly when there is nothing to copy, or when there is a buffer,
/// the target lies before the source, and the source lies in the file. The bytes at the target are
/// then those that stood at the source, and all others stay. Where the source lies in the file and
/// the copy is refused, the file stays as it is.
pub proof fn law_copy_within(file: Seq<u8>, src: int, dst: int, len: int, buf_len: int)
    requires
        0 <= src,
        0 <= dst,
        0 <= len,
        0 <= buf_len,
    ensures
        ({
            let (out, r) = copy_within_outcome(file, src, dst, len, buf_len);
            let nothing = len == 0 || src == dst;
            &&& r is Ok <==> nothing || (buf_len > 0 && dst < src && src + len <= file.len())
            &&& out.len() == file.len()
            &&& nothing ==> out == file
            &&& r is Ok ==> forall|i: int|
                0 <= i < file.len() && !nothing ==> #[trigger] out[i] == if dst <= i < dst + len {
                    file[src + i - dst]
                } else {
                    file[i]
                }
            &&& r is Err && src + len <= file.len() ==> out == file
            &&& forall|i: int|
                0 <= i < file.len() && !(dst <= i < dst + len) ==> #[trigger] out[i] == file[i]
        }),
{
}

/// A copy that has work to do goes on in steps that are not empty, fit the buffer, and never go
/// beyond what is to be copied, whatever part of each step is read. It ends early exactly when
/// nothing is read.
pub proof fn law_copy_steps(
    src: u64,
    dst: u64,
    len: u64,
    buf_len: usize,
    work: Result<bool>,
    done: u64,
    wanted: usize,
    n: usize,
    next: Result<u64>,
)
    requires
        call_ensures(copy_has_work, (src, dst, len, buf_len), work),
        call_ensures(next_chunk, (done, len, buf_len), wanted),
        call_ensures(after_chunk, (done, n), next),
        work matches Ok(true),
        done < len,
        n <= wanted,
    ensures
        dst < src,
        0 < wanted <= buf_len,
        done + wanted <= len,
        next is Err <==> n == 0,
        next matches Ok(more) ==> more == done + n && done < more <= len,
{
}

} // verus!
