use campross::error::Error;
use campross::method::{decide, method_or_default, Action, Flags, Method};

const ALL: [Method; 9] = [
    Method::Arith,
    Method::WittenArith,
    Method::Lzw,
    Method::Lz77,
    Method::Lzss,
    Method::Lzmg2,
    Method::Huff,
    Method::Lzp,
    Method::BinArith,
];

fn sample_text(len: usize) -> Vec<u8> {
    let words: [&[u8]; 8] = [
        b"method ", b"compress ", b"decompress\n", b"    match method {\n", b"input ",
        b"output; ", b"// all ", b"1234 ",
    ];
    let mut out = Vec::new();
    let mut x: u32 = 30103;
    while out.len() < len {
        x = x.wrapping_mul(1664525).wrapping_add(1013904223);
        out.extend_from_slice(words[((x >> 16) % 8) as usize]);
    }
    out.truncate(len);
    out
}

#[test]
fn method_names() {
    assert_eq!(Some(Method::Arith), Method::from_name(b"arith"));
    assert_eq!(Some(Method::WittenArith), Method::from_name(b"warith"));
    assert_eq!(Some(Method::Lzw), Method::from_name(b"lzw"));
    assert_eq!(Some(Method::Lz77), Method::from_name(b"lz77"));
    assert_eq!(Some(Method::Lzss), Method::from_name(b"lzss"));
    assert_eq!(Some(Method::Lzmg2), Method::from_name(b"lzmg2"));
    assert_eq!(Some(Method::Huff), Method::from_name(b"huff"));
    assert_eq!(Some(Method::Lzp), Method::from_name(b"lzp"));
    assert_eq!(Some(Method::BinArith), Method::from_name(b"binarith"));
    assert_eq!(None, Method::from_name(b""));
    assert_eq!(None, Method::from_name(b"lz"));
    assert_eq!(None, Method::from_name(b"lz78"));
    assert_eq!(None, Method::from_name(b"Arith"));
    assert_eq!(None, Method::from_name(b"arith "));
    for m in ALL {
        assert_eq!(Some(m), Method::from_name(&m.name()[..]));
    }
    assert_eq!(Some(Method::Arith), method_or_default(None));
    assert_eq!(Some(Method::Huff), method_or_default(Some(b"huff")));
    assert_eq!(None, method_or_default(Some(b"zip")));
}

#[test]
fn every_method_round_trips() {
    let input = sample_text(20000);
    for m in ALL {
        let compressed = m.compress(&input[..], vec![]).unwrap();
        assert!(compressed.len() < input.len() + input.len() / 8 + 16);
        assert_eq!(Ok(input.clone()), m.decompress(&compressed[..], vec![]));
    }
}

#[test]
fn methods_do_what_their_modules_do() {
    let input = b"abcabcabcabcabcabc";
    assert_eq!(campross::arith::compress(input, vec![]), Method::Arith.compress(input, vec![]));
    assert_eq!(campross::lzw::compress(input, vec![]), Method::Lzw.compress(input, vec![]));
    assert_eq!(campross::lzss2::compress(input, vec![]), Method::Lzss.compress(input, vec![]));
    assert_eq!(campross::lzp::compress(input, vec![]), Method::Lzp.compress(input, vec![]));
    assert_eq!(Ok(vec![255, 64]), Method::Arith.compress(b"", vec![]));
    assert_eq!(Err(Error::UnexpectedEof), Method::Lz77.decompress(&[1, 2], vec![]));
}

fn flags() -> Flags {
    Flags {
        examine: false,
        test: false,
        compare: false,
        compress: false,
        decompress: false,
        has_input: true,
        has_output: true,
        method: Some(Method::Lzw),
    }
}

#[test]
fn what_the_options_ask_for() {
    assert_eq!(Action::Usage, decide(&flags()));
    assert_eq!(Action::Compress(Method::Lzw), decide(&Flags { compress: true, ..flags() }));
    assert_eq!(Action::Decompress(Method::Lzw), decide(&Flags { decompress: true, ..flags() }));
    assert_eq!(Action::Usage, decide(&Flags { compress: true, decompress: true, ..flags() }));
    assert_eq!(Action::Usage, decide(&Flags { compress: true, has_output: false, ..flags() }));
    assert_eq!(Action::Usage, decide(&Flags { compress: true, method: None, ..flags() }));
    assert_eq!(Action::Test(Method::Lzw), decide(&Flags { test: true, compress: true, ..flags() }));
    assert_eq!(Action::Test(Method::Lzw), decide(&Flags { test: true, has_output: false, ..flags() }));
    assert_eq!(Action::Usage, decide(&Flags { test: true, has_input: false, ..flags() }));
    assert_eq!(Action::Usage, decide(&Flags { test: true, method: None, ..flags() }));
    assert_eq!(Action::Compare, decide(&Flags { compare: true, method: None, ..flags() }));
    assert_eq!(Action::Usage, decide(&Flags { compare: true, has_input: false, ..flags() }));
    assert_eq!(
        Action::Inspect(Method::Lzw),
        decide(&Flags { examine: true, test: true, compare: true, ..flags() })
    );
    assert_eq!(Action::Test(Method::Lzw), decide(&Flags { test: true, compare: true, ..flags() }));
}
