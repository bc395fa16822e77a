use vstd::prelude::*;
use std::collections::VecDeque;
use crate::mm::UserBuffer;

verus! {

broadcast use vstd::std_specs::vecdeque::group_vec_dequeue_axioms;

/// The most mails a mailbox holds at once.
pub const MAX_MAILS_NUM: usize = 16;

/// A task's mailbox: the mails it has received and not yet read, oldest first.
#[derive(Debug, Clone)]
pub struct Mails(pub VecDeque<Vec<u8>>);

impl View for Mails {
    type V = Seq<Seq<u8>>;

    open spec fn view(&self) -> Seq<Seq<u8>> {
        self.0@.map_values(|m: Vec<u8>| m@)
    }
}

/// The number of bytes that reading `mail` into a buffer of `cap` bytes copies.
pub open spec fn copied_len(mail: Seq<u8>, cap: nat) -> nat {
    if mail.len() <= cap { mail.len() } else { cap }
}

/// The buffer `buf` after the first `n` bytes of `mail` were copied to its front.
pub open spec fn copy_front(buf: Seq<u8>, mail: Seq<u8>, n: nat) -> Seq<u8> {
    mail.subrange(0, n as int) + buf.subrange(n as int, buf.len() as int)
}

/// A separate vector holding the same bytes.
pub fn copy_bytes(b: &Vec<u8>) -> (c: Vec<u8>)
    ensures
        c@ == b@,
{
    let mut c: Vec<u8> = Vec::new();
    let mut i: usize = 0;
    while i < b.len()
        invariant
            i <= b@.len(),
            c@ == b@.subrange(0, i as int),
        decreases b@.len() - i,
    {
        c.push(b[i]);
        i = i + 1;
        assert(c@ =~= b@.subrange(0, i as int));
    }
    assert(c@ =~= b@);
    c
}

impl Mails {
    /// An empty mailbox.
    pub fn new() -> (m: Self)
        ensures
            m@ == Seq::<Seq<u8>>::empty(),
    {
        let m = Mails(VecDeque::new());
        assert(m@ =~= Seq::<Seq<u8>>::empty());
        m
    }

    /// A separate mailbox holding the same mails in the same order.
    pub fn copy(&self) -> (m: Self)
        ensures
            m@ == self@,
    {
        let mut q: VecDeque<Vec<u8>> = VecDeque::new();
        let mut i: usize = 0;
        while i < self.0.len()
            invariant
                i <= self.0@.len(),
                q@.len() == i,
                forall|j: int| 0 <= j < i ==> (#[trigger] q@[j])@ == self.0@[j]@,
            decreases self.0@.len() - i,
        {
            let mail = copy_bytes(&self.0[i]);
            q.push_back(mail);
            i = i + 1;
        }
        let m = Mails(q);
        assert(m@ =~= self@);
        m
    }

    /// The number of mails waiting.
    pub fn len(&self) -> (n: usize)
        ensures
            n == self@.len(),
    {
        self.0.len()
    }

    /// Whether a mail is waiting to be read.
    pub fn readable(&self) -> (r: bool)
        ensures
            r == (self@.len() > 0),
    {
        self.0.len() > 0
    }

    /// Whether the mailbox has room for one more mail.
    pub fn writable(&self) -> (r: bool)
        ensures
            r == (self@.len() < MAX_MAILS_NUM),
    {
        self.0.len() < MAX_MAILS_NUM
    }

    /// Takes the oldest mail out of the mailbox and copies as much of it as fits
    /// to the front of `buf`; the rest of the mail is lost. Returns the number of
    /// bytes copied.
    pub fn read(&mut self, buf: &mut UserBuffer) -> (read_size: usize)
        requires
            old(self)@.len() > 0,
        ensures
            read_size == copied_len(old(self)@[0], old(buf)@.len()),
            final(buf)@ == copy_front(old(buf)@, old(self)@[0], read_size as nat),
            final(self)@ == old(self)@.drop_first(),
    {
        let ghost old_mails = self@;
        let ghost old_buf = buf@;
        let mail = self.0.pop_front().unwrap();
        proof {
            assert(self@ =~= old_mails.drop_first());
        }
        let mut read_size: usize = 0;
        while read_size < mail.len() && read_size < buf.bytes.len()
            invariant
                read_size <= mail.len(),
                read_size <= buf@.len(),
                buf@.len() == old_buf.len(),
                mail@ == old_mails[0],
                buf@ =~= copy_front(old_buf, mail@, read_size as nat),
            decreases mail.len() - read_size,
        {
            buf.bytes.set(read_size, mail[read_size]);
            read_size += 1;
        }
        read_size
    }

    /// Puts the whole of `buf` into the mailbox as its newest mail. Returns the
    /// number of bytes taken.
    pub fn write(&mut self, buf: &UserBuffer) -> (write_size: usize)
        ensures
            write_size == buf@.len(),
            final(self)@ == old(self)@.push(buf@),
    {
        let ghost old_mails = self@;
        let mut mail: Vec<u8> = Vec::new();
        let mut write_size: usize = 0;
        while write_size < buf.bytes.len()
            invariant
                write_size <= buf@.len(),
                mail@ =~= buf@.subrange(0, write_size as int),
            decreases buf@.len() - write_size,
        {
            mail.push(buf.bytes[write_size]);
            write_size += 1;
        }
        assert(mail@ =~= buf@);
        self.0.push_back(mail);
        proof {
            assert(self@ =~= old_mails.push(buf@));
        }
        write_size
    }
}

/// Mails leave a mailbox in the order they came in: a new mail goes behind
/// the ones already waiting, and is the next one read when none was waiting.
pub proof fn mails_first_in_first_out(mails: Seq<Seq<u8>>, mail: Seq<u8>)
    ensures
        mails.len() == 0 ==> mails.push(mail)[0] == mail && mails.push(mail).drop_first()
            == mails,
        mails.len() > 0 ==> mails.push(mail)[0] == mails[0] && mails.push(mail).drop_first()
            == mails.drop_first().push(mail),
{
    if mails.len() == 0 {
        assert(mails.push(mail).drop_first() =~= mails);
    } else {
        assert(mails.push(mail).drop_first() =~= mails.drop_first().push(mail));
    }
}

/// Reading a mail into a buffer at least as long as the mail gives back the
/// whole mail, and leaves the rest of the buffer as it was.
pub proof fn mail_read_gives_back_write(buf: Seq<u8>, mail: Seq<u8>)
    requires
        mail.len() <= buf.len(),
    ensures
        copied_len(mail, buf.len()) == mail.len(),
        copy_front(buf, mail, mail.len()).subrange(0, mail.len() as int) == mail,
        copy_front(buf, mail, mail.len()).subrange(mail.len() as int, buf.len() as int)
            == buf.subrange(mail.len() as int, buf.len() as int),
        copy_front(buf, mail, mail.len()).len() == buf.len(),
{
    let r = copy_front(buf, mail, mail.len());
    assert(r.subrange(0, mail.len() as int) =~= mail);
    assert(r.subrange(mail.len() as int, buf.len() as int) =~= buf.subrange(
        mail.len() as int,
        buf.len() as int,
    ));
}

/// A read copies the smaller of the mail's length and the buffer's length:
/// the first that many bytes of the buffer become the mail's first bytes, and
/// the rest of the buffer stays as it was.
pub proof fn mail_read_copies_prefix(buf: Seq<u8>, mail: Seq<u8>)
    ensures
        ({
            let n = copied_len(mail, buf.len());
            let out = copy_front(buf, mail, n);
            &&& n <= mail.len()
            &&& n <= buf.len()
            &&& (n == mail.len() || n == buf.len())
            &&& out.len() == buf.len()
            &&& forall|i: int| 0 <= i < n ==> #[trigger] out[i] == mail[i]
            &&& forall|i: int| n <= i < buf.len() ==> #[trigger] out[i] == buf[i]
        }),
{
}

/// A read never copies more than the mail holds nor more than the buffer holds,
/// and never changes the buffer's length.
pub proof fn mail_read_bounded(buf: Seq<u8>, mail: Seq<u8>)
    ensures
        copied_len(mail, buf.len()) <= mail.len(),
        copied_len(mail, buf.len()) <= buf.len(),
        copy_front(buf, mail, copied_len(mail, buf.len())).len() == buf.len(),
{
}

} // verus!
