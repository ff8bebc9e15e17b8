use usbfwd::errno;

#[test]
fn the_numbers_are_those_of_the_system() {
    assert_eq!(errno::EINTR, libc::EINTR);
    assert_eq!(errno::EAGAIN, libc::EAGAIN);
    assert_eq!(errno::EBUSY, libc::EBUSY);
    assert_eq!(errno::ENODEV, libc::ENODEV);
    assert_eq!(errno::EINVAL, libc::EINVAL);
    assert_eq!(errno::ENOTTY, libc::ENOTTY);
    assert_eq!(errno::EPIPE, libc::EPIPE);
    assert_eq!(errno::ENODATA, libc::ENODATA);
    assert_eq!(errno::EOPNOTSUPP, libc::EOPNOTSUPP);
    assert_eq!(errno::ECONNRESET, libc::ECONNRESET);
    assert_eq!(errno::ESHUTDOWN, libc::ESHUTDOWN);
    assert_eq!(errno::POLLIN, libc::POLLIN);
    assert_eq!(errno::POLLOUT, libc::POLLOUT);
    assert_eq!(errno::POLLERR, libc::POLLERR);
    assert_eq!(errno::POLLHUP, libc::POLLHUP);
    assert_eq!(errno::POLLNVAL, libc::POLLNVAL);
}
