use lib::fs::mails::MAX_MAILS_NUM;
use lib::fs::Mails;
use lib::mm::UserBuffer;

fn buffer(bytes: &[u8]) -> UserBuffer {
    UserBuffer::new(bytes.to_vec())
}

#[test]
fn new_mailbox_is_empty() {
    let m = Mails::new();
    assert_eq!(m.len(), 0);
    assert!(!m.readable());
    assert!(m.writable());
}

#[test]
fn write_then_read_gives_back_the_mail() {
    let mut m = Mails::new();
    assert_eq!(m.write(&buffer(b"hello")), 5);
    assert!(m.readable());
    let mut buf = buffer(&[0; 8]);
    assert_eq!(m.read(&mut buf), 5);
    assert_eq!(buf.bytes, b"hello\0\0\0".to_vec());
    assert!(!m.readable());
}

#[test]
fn read_cuts_a_long_mail_to_the_buffer() {
    let mut m = Mails::new();
    m.write(&buffer(b"abcdefgh"));
    let mut buf = buffer(&[9; 3]);
    assert_eq!(m.read(&mut buf), 3);
    assert_eq!(buf.bytes, b"abc".to_vec());
    // the rest of the mail is gone with it
    assert_eq!(m.len(), 0);
}

#[test]
fn mails_come_out_in_order() {
    let mut m = Mails::new();
    m.write(&buffer(b"one"));
    m.write(&buffer(b"two"));
    m.write(&buffer(b"three"));
    let mut buf = buffer(&[0; 5]);
    assert_eq!(m.read(&mut buf), 3);
    assert_eq!(&buf.bytes[..3], b"one");
    assert_eq!(m.read(&mut buf), 3);
    assert_eq!(&buf.bytes[..3], b"two");
    assert_eq!(m.read(&mut buf), 5);
    assert_eq!(buf.bytes, b"three".to_vec());
}

#[test]
fn empty_mail_and_empty_buffer() {
    let mut m = Mails::new();
    assert_eq!(m.write(&buffer(b"")), 0);
    assert!(m.readable());
    let mut buf = buffer(b"xy");
    assert_eq!(m.read(&mut buf), 0);
    assert_eq!(buf.bytes, b"xy".to_vec());
    m.write(&buffer(b"data"));
    let mut none = buffer(b"");
    assert_eq!(m.read(&mut none), 0);
    assert!(!m.readable());
}

#[test]
fn mailbox_fills_at_sixteen() {
    let mut m = Mails::new();
    for i in 0..MAX_MAILS_NUM {
        assert!(m.writable());
        m.write(&buffer(&[i as u8]));
    }
    assert_eq!(m.len(), 16);
    assert!(!m.writable());
    let mut buf = buffer(&[0]);
    m.read(&mut buf);
    assert_eq!(buf.bytes, vec![0]);
    assert!(m.writable());
}
