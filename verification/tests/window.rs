use campross::window::SlidingWindow;

#[test]
fn basics() {
    let mut w = SlidingWindow::new(20, 7);

    assert!(w.is_empty());
    assert_eq!(w.window_slice().len(), 0);
    assert_eq!(w.lookahead_slice().len(), 0);
    {
        let (s, p) = w.view();
        assert_eq!(0, p);
        assert_eq!(0, s.len());
    }

    w.push(b'a');

    assert!(!w.is_empty());

    w.push(b'b');
    w.push(b'c');

    assert_eq!(0, w.window_slice().len());
    assert_eq!(3, w.lookahead_slice().len());
    assert_eq!(b'a', w.element());
    assert_eq!(b'a', w.lookahead_slice()[0]);

    let _ = w.advance();

    assert_eq!(b'b', w.element());
    assert_eq!(1, w.window_slice().len());
    assert_eq!(2, w.lookahead_slice().len());
    assert_eq!(b'a', w.window_slice()[0]);
    assert_eq!(b'b', w.lookahead_slice()[0]);
    {
        let (s, p) = w.view();
        assert_eq!(1, p);
        assert_eq!(3, s.len());
    }

    for _ in 0..6 {
        w.push(b'x');
    }
    assert_eq!(1, w.window_slice().len());
    assert_eq!(7, w.lookahead_slice().len());
    assert_eq!(b'a', w.window_slice()[0]);
    assert_eq!(b'b', w.lookahead_slice()[0]);

    for _ in 0..9 {
        let _ = w.advance();
        w.push(b'y');
    }
    assert_eq!(10, w.window_slice().len());
    assert_eq!(7, w.lookahead_slice().len());

    for _ in 0..3 {
        let _ = w.advance();
    }
    assert_eq!(13, w.window_slice().len());
    assert_eq!(5, w.lookahead_slice().len());
    assert_eq!(b'a', w.window_slice()[0]);
    assert_eq!(b'y', w.lookahead_slice()[0]);

    for _ in 0..10 {
        let _ = w.advance();
        w.push(b'z');
    }
    assert_eq!(20, w.window_slice().len());
    assert_eq!(5, w.lookahead_slice().len());
    assert_eq!(b'x', w.window_slice()[0]);
    assert_eq!(b'z', w.lookahead_slice()[0]);

    for _ in 0..15 {
        let _ = w.advance();
        w.push(b'9');
    }
    assert_eq!(20, w.window_slice().len());
    assert_eq!(5, w.lookahead_slice().len());
    assert_eq!(b'z', w.window_slice()[0]);
    assert_eq!(b'9', w.lookahead_slice()[0]);

    for _ in 0..3 {
        w.push(b'7');
    }
    assert_eq!(20, w.window_slice().len());
    assert_eq!(7, w.lookahead_slice().len());
    assert_eq!(b'z', w.window_slice()[0]);
    assert_eq!(b'9', w.lookahead_slice()[0]);

    for _ in 0..3 {
        let _ = w.advance();
    }
    assert_eq!(20, w.window_slice().len());
    assert_eq!(5, w.lookahead_slice().len());
    assert_eq!(b'z', w.window_slice()[0]);
    assert_eq!(b'9', w.lookahead_slice()[0]);

    w.push(b'R');
    assert_eq!(20, w.window_slice().len());
    assert_eq!(6, w.lookahead_slice().len());
    assert_eq!(b'z', w.window_slice()[0]);
    assert_eq!(b'9', w.lookahead_slice()[0]);
    {
        let (s, p) = w.view();
        assert_eq!(20, p);
        assert_eq!(26, s.len());
    }

    w.push(b'R');
}

#[test]
fn window_slides_down_by_its_size() {
    let mut w = SlidingWindow::new(4, 2);
    assert_eq!(10, w.free_space());
    for b in b"abcdefghij" {
        w.push(*b);
    }
    assert_eq!(0, w.free_space());
    assert_eq!(2, w.lookahead_len());
    for _ in 0..7 {
        assert!(!w.advance());
    }
    assert_eq!(b'h', w.element());
    assert!(w.advance());
    assert_eq!(4, w.position);
    assert_eq!(6, w.limit);
    assert_eq!(b'i', w.element());
    assert_eq!(b"efgh", w.window_slice());
    assert_eq!(b"ij", w.lookahead_slice());
    assert_eq!(4, w.free_space());
    assert_eq!(vec![b'e', b'f', b'g', b'h', b'i', b'j', 0, 0, 0, 0], w.window);
}

#[test]
fn window_view_mut_changes_the_buffer() {
    let mut w = SlidingWindow::new(4, 2);
    for b in b"abc" {
        w.push(*b);
    }
    let _ = w.advance();
    {
        let (s, p) = w.view_mut();
        assert_eq!(1, p);
        assert_eq!(3, s.len());
        s[0] = b'X';
        s[2] = b'Z';
    }
    assert_eq!(b"X", w.window_slice());
    assert_eq!(b"bZ", w.lookahead_slice());
    assert_eq!(2, w.lookahead_len());
}
