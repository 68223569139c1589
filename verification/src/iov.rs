//! Plain-value models of the I/O control block and the user I/O vector,
//! and the toggle-file protocol that reads and writes through them.
//!
//! A toggle file shows a boolean as `0\n` or `1\n` and accepts the usual
//! boolean words. The embedding layer moves the bytes between user memory
//! and these models; the protocol itself is verified here.

use vstd::prelude::*;
use crate::device::AshmemError;

verus! {

/// Model of an I/O control block: the file position a read keeps.
pub struct Kiocb {
    pub ki_pos: i64,
}

impl Kiocb {
    /// A control block at the given file position.
    pub fn new(ki_pos: i64) -> (r: Kiocb)
        ensures
            r.ki_pos == ki_pos,
    {
        Kiocb { ki_pos }
    }

    /// The current file position.
    pub fn ki_pos(&self) -> (r: i64)
        ensures
            r == self.ki_pos,
    {
        self.ki_pos
    }

    /// Mutable access to the file position.
    pub fn ki_pos_mut(&mut self) -> (r: &mut i64)
        ensures
            *r == old(self).ki_pos,
            final(self).ki_pos == *final(r),
    {
        &mut self.ki_pos
    }
}

/// Model of a user I/O vector: the bytes the user handed in with a read
/// cursor over them, the bytes handed back out, and how many more the
/// user's buffer can take.
pub struct IovIter {
    pub data: Vec<u8>,
    pub pos: usize,
    pub out: Vec<u8>,
    pub capacity: usize,
}

impl IovIter {
    /// An iterator over the user bytes `data`, with room for `capacity`
    /// bytes of output.
    pub fn new(data: Vec<u8>, capacity: usize) -> (r: IovIter)
        ensures
            r.data == data,
            r.pos == 0,
            r.out@ == Seq::<u8>::empty(),
            r.capacity == capacity,
    {
        let r = IovIter { data, pos: 0, out: Vec::new(), capacity };
        proof {
            assert(r.out@ =~= Seq::<u8>::empty());
        }
        r
    }

    /// The bytes handed out so far.
    pub fn as_raw(&self) -> (r: &Vec<u8>)
        ensures
            r@ == self.out@,
    {
        &self.out
    }

    /// Copy up to `max` bytes from the user's buffer, advancing the read
    /// cursor past them.
    pub fn copy_from_iter(&mut self, max: usize) -> (r: Vec<u8>)
        requires
            old(self).pos <= old(self).data@.len(),
        ensures
            final(self).data == old(self).data,
            final(self).out == old(self).out,
            final(self).capacity == old(self).capacity,
            r@.len() == (if old(self).data@.len() - old(self).pos < max {
                old(self).data@.len() - old(self).pos
            } else {
                max as int
            }),
            r@ == old(self).data@.subrange(
                old(self).pos as int,
                old(self).pos + r@.len(),
            ),
            final(self).pos == old(self).pos + r@.len(),
    {
        let dlen = self.data.len();
        let avail = dlen - self.pos;
        let n = if avail < max {
            avail
        } else {
            max
        };
        let mut r: Vec<u8> = Vec::new();
        let mut i: usize = 0;
        while i < n
            invariant
                0 <= i <= n,
                self.pos + n <= self.data@.len(),
                self.pos + n <= dlen,
                r@ =~= self.data@.subrange(self.pos as int, self.pos + i),
            decreases n - i,
        {
            r.push(self.data[self.pos + i]);
            proof {
                assert(r@ =~= self.data@.subrange(self.pos as int, self.pos + i + 1));
            }
            i = i + 1;
        }
        self.pos = self.pos + n;
        r
    }

    /// Copy bytes out to the user: all of `src`, or none when the user's
    /// buffer cannot take them.
    pub fn copy_to_iter(&mut self, src: &Vec<u8>) -> (r: Result<(), AshmemError>)
        ensures
            final(self).data == old(self).data,
            final(self).pos == old(self).pos,
            final(self).capacity == old(self).capacity,
            old(self).out@.len() + src@.len() <= old(self).capacity ==> {
                &&& r == Ok::<(), AshmemError>(())
                &&& final(self).out@ == old(self).out@ + src@
            },
            old(self).out@.len() + src@.len() > old(self).capacity ==> {
                &&& r == Err::<(), AshmemError>(AshmemError::BadAddress)
                &&& final(self).out@ == old(self).out@
            },
    {
        if self.capacity < self.out.len() || src.len() > self.capacity - self.out.len() {
            return Err(AshmemError::BadAddress);
        }
        let ghost out0 = self.out@;
        let n = src.len();
        let mut i: usize = 0;
        while i < n
            invariant
                0 <= i <= n,
                n == src@.len(),
                self.data == old(self).data,
                self.pos == old(self).pos,
                self.capacity == old(self).capacity,
                out0 == old(self).out@,
                self.out@ =~= out0 + src@.take(i as int),
            decreases n - i,
        {
            self.out.push(src[i]);
            proof {
                assert(self.out@ =~= out0 + src@.take(i as int + 1));
            }
            i = i + 1;
        }
        proof {
            assert(src@.take(n as int) =~= src@);
        }
        Ok(())
    }
}

/// What the boolean words parse to: the first byte decides, with `on` and
/// `off` looked at one byte further.
pub open spec fn spec_kstrtobool(s: Seq<u8>) -> Option<bool> {
    if s.len() == 0 {
        None
    } else if s[0] == 49 || s[0] == 121 || s[0] == 89 {
        Some(true)
    } else if s[0] == 48 || s[0] == 110 || s[0] == 78 {
        Some(false)
    } else if s[0] == 111 || s[0] == 79 {
        if s.len() >= 2 && (s[1] == 110 || s[1] == 78) {
            Some(true)
        } else if s.len() >= 2 && (s[1] == 102 || s[1] == 70) {
            Some(false)
        } else {
            None
        }
    } else {
        None
    }
}

/// Parse a boolean word as the kernel's string-to-bool helper does:
/// `1`, `y`, `Y` mean true, `0`, `n`, `N` false, and `on`/`off` by their
/// second letter; anything else is invalid.
pub fn kstrtobool(s: &Vec<u8>) -> (r: Result<bool, AshmemError>)
    ensures
        spec_kstrtobool(s@) matches Some(b) ==> r == Ok::<bool, AshmemError>(b),
        spec_kstrtobool(s@) matches None ==> r == Err::<bool, AshmemError>(
            AshmemError::InvalidArgument,
        ),
{
    if s.len() == 0 {
        return Err(AshmemError::InvalidArgument);
    }
    let c = s[0];
    if c == 49 || c == 121 || c == 89 {
        Ok(true)
    } else if c == 48 || c == 110 || c == 78 {
        Ok(false)
    } else if c == 111 || c == 79 {
        if s.len() >= 2 && (s[1] == 110 || s[1] == 78) {
            Ok(true)
        } else if s.len() >= 2 && (s[1] == 102 || s[1] == 70) {
            Ok(false)
        } else {
            Err(AshmemError::InvalidArgument)
        }
    } else {
        Err(AshmemError::InvalidArgument)
    }
}

/// The bytes a toggle file shows for a state: the digit and a newline.
pub open spec fn toggle_bytes(enabled: bool) -> Seq<u8> {
    if enabled {
        seq![49u8, 10u8]
    } else {
        seq![48u8, 10u8]
    }
}

/// One read of a toggle file: at position zero the state goes out as two
/// bytes and the position advances past them; any later position is end
/// of file.
pub fn toggle_read(enabled: bool, kiocb: &mut Kiocb, iov: &mut IovIter) -> (r: Result<
    usize,
    AshmemError,
>)
    ensures
        old(kiocb).ki_pos != 0 ==> {
            &&& r == Ok::<usize, AshmemError>(0)
            &&& final(kiocb).ki_pos == old(kiocb).ki_pos
            &&& final(iov).out@ == old(iov).out@
        },
        old(kiocb).ki_pos == 0 && old(iov).out@.len() + 2 <= old(iov).capacity ==> {
            &&& r == Ok::<usize, AshmemError>(2)
            &&& final(kiocb).ki_pos == 2
            &&& final(iov).out@ == old(iov).out@ + toggle_bytes(enabled)
        },
        old(kiocb).ki_pos == 0 && old(iov).out@.len() + 2 > old(iov).capacity ==> {
            &&& r == Err::<usize, AshmemError>(AshmemError::BadAddress)
            &&& final(kiocb).ki_pos == old(kiocb).ki_pos
            &&& final(iov).out@ == old(iov).out@
        },
{
    if kiocb.ki_pos() != 0 {
        return Ok(0);
    }
    let mut data: Vec<u8> = Vec::new();
    if enabled {
        data.push(49);
    } else {
        data.push(48);
    }
    data.push(10);
    proof {
        assert(data@ =~= toggle_bytes(enabled));
    }
    let res = iov.copy_to_iter(&data);
    if res.is_err() {
        return Err(AshmemError::BadAddress);
    }
    *kiocb.ki_pos_mut() = 2;
    Ok(2)
}

/// One write to a toggle file: up to fifteen bytes are taken from the
/// user and parsed as a boolean word. The parsed state and the number of
/// bytes consumed come back; the caller applies the state to its knob.
pub fn toggle_write(iov: &mut IovIter) -> (r: Result<(bool, usize), AshmemError>)
    requires
        old(iov).pos <= old(iov).data@.len(),
    ensures
        final(iov).data == old(iov).data,
        final(iov).out == old(iov).out,
        ({
            let avail = old(iov).data@.len() - old(iov).pos;
            let n = if avail < 15 {
                avail
            } else {
                15
            };
            let consumed = old(iov).data@.subrange(old(iov).pos as int, old(iov).pos + n);
            &&& final(iov).pos == old(iov).pos + n
            &&& (spec_kstrtobool(consumed) matches Some(b) ==> r == Ok::<(bool, usize),
            AshmemError>((b, n as usize)))
            &&& (spec_kstrtobool(consumed) matches None ==> r == Err::<(bool, usize),
            AshmemError>(AshmemError::InvalidArgument))
        }),
{
    let buf = iov.copy_from_iter(15);
    let len = buf.len();
    let value = kstrtobool(&buf);
    match value {
        Ok(b) => Ok((b, len)),
        Err(e) => Err(e),
    }
}

} // verus!
