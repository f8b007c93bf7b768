use minishell::sigsafe::{format_string_int, format_string_str, MSGBUF_LEN};

#[test]
fn test_format_int() {
    let test_string = b"H %d";
    let x: i32 = 618206;
    let ret = format_string_int(test_string, x);
    let mut correct = [0u8; MSGBUF_LEN];
    correct[0] = b'H';
    correct[1] = b' ';
    correct[2] = '6' as u8;
    correct[3] = '1' as u8;
    correct[4] = '8' as u8;
    correct[5] = '2' as u8;
    correct[6] = '0' as u8;
    correct[7] = '6' as u8;
    println!("{:?}", &ret[0..32]);
    println!("{:?}", &correct[0..9]);
    for i in 0..MSGBUF_LEN {
        assert_eq!(correct[i], ret[i]);
    }
}

#[test]
fn test_format_ids() {
    let msgbuf = b"Job [%d] (%d) stopped by %s\n";
    let jid = 2;
    let pid = 1058514;
    let msg = format_string_int(msgbuf, jid);
    let msg = format_string_int(&msg[..], pid);
    let msg = format_string_str(&msg[..], "SIGTSTP".as_bytes());

    let correct = "Job [2] (1058514) stopped by SIGTSTP\n".as_bytes();
    println!("{:?}", &msg[0..32]);
    println!("{:?}", &correct[0..32]);
    for i in 0..correct.len() {
        assert_eq!(msg[i], correct[i]);
    }
}

fn padded(text: &[u8]) -> [u8; MSGBUF_LEN] {
    let mut out = [0u8; MSGBUF_LEN];
    for (i, b) in text.iter().enumerate() {
        if i < MSGBUF_LEN {
            out[i] = *b;
        }
    }
    out
}

#[test]
fn format_three_values_with_zero_padding() {
    let msg = format_string_int(b"Job [%d] (%d) stopped by %s", 2);
    let msg = format_string_int(&msg[..], 1058514);
    let msg = format_string_str(&msg[..], b"SIGTSTP");
    assert_eq!(msg, padded(b"Job [2] (1058514) stopped by SIGTSTP"));
}

#[test]
fn template_without_placeholder_is_copied() {
    assert_eq!(format_string_int(b"nothing here", 5), padded(b"nothing here"));
    assert_eq!(format_string_str(b"100% d", b"x"), padded(b"100% d"));
    assert_eq!(format_string_str(b"", b"x"), padded(b""));
    assert_eq!(format_string_int(b"ends in %", 5), padded(b"ends in %"));
}

#[test]
fn only_first_placeholder_is_replaced() {
    assert_eq!(format_string_int(b"%d and %d", 7), padded(b"7 and %d"));
    assert_eq!(format_string_str(b"%s and %s", b"one"), padded(b"one and %s"));
}

#[test]
fn number_goes_to_the_number_placeholder() {
    assert_eq!(format_string_int(b"%s is %d", 41), padded(b"%s is 41"));
    assert_eq!(format_string_str(b"%d is %s", b"it"), padded(b"%d is it"));
}

#[test]
fn zero_and_largest_number() {
    assert_eq!(format_string_int(b"<%d>", 0), padded(b"<0>"));
    assert_eq!(format_string_int(b"<%d>", 10), padded(b"<10>"));
    assert_eq!(format_string_int(b"<%d>", 2147483647), padded(b"<2147483647>"));
}

#[test]
fn negative_number_has_a_minus_sign() {
    assert_eq!(format_string_int(b"<%d>", -1), padded(b"<-1>"));
    assert_eq!(format_string_int(b"<%d>", -2147483648), padded(b"<-2147483648>"));
}

#[test]
fn text_that_does_not_fit_is_cut_off() {
    let long = [b'x'; 300];
    let out = format_string_str(b"ab%scd", &long);
    assert_eq!(out[0], b'a');
    assert_eq!(out[1], b'b');
    for i in 2..MSGBUF_LEN {
        assert_eq!(out[i], b'x');
    }
}

#[test]
fn replacement_near_the_end_is_cut_off() {
    let mut template = [b'.'; MSGBUF_LEN];
    template[252] = b'%';
    template[253] = b'd';
    let out = format_string_int(&template, 123456);
    let mut expected = [b'.'; MSGBUF_LEN];
    expected[252] = b'1';
    expected[253] = b'2';
    expected[254] = b'3';
    expected[255] = b'4';
    assert_eq!(out, expected);
}

#[test]
fn long_template_is_cut_off() {
    let mut template = [b'.'; 300];
    template[0] = b'%';
    template[1] = b's';
    template[299] = b'!';
    let out = format_string_str(&template, b"");
    assert_eq!(out, [b'.'; MSGBUF_LEN]);
    template[1] = b'd';
    let out = format_string_int(&template, 7);
    let mut expected = [b'.'; MSGBUF_LEN];
    expected[0] = b'7';
    expected[255] = 0;
    assert_eq!(out, expected);
}

#[test]
fn empty_text_removes_the_placeholder() {
    assert_eq!(format_string_str(b"a%sb", b""), padded(b"ab"));
}
