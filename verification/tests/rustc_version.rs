use thread_local::rustc_version::{parse, NumberError, VersionError};

#[test]
fn versions() {
    assert_eq!(parse(b"rustc 1.36.0 (a53f9df32 2019-07-03)\n"), Ok(true));
    assert_eq!(parse(b"rustc 1.35.0 (3c235d560 2019-05-20)\n"), Ok(false));
    assert_eq!(parse(b"rustc 1.70"), Ok(true));
    assert_eq!(parse(b"rustc 1.9.0-nightly"), Ok(false));
    assert_eq!(parse(b"rustc 1.+36.0"), Ok(true));
    assert_eq!(parse(b"rustc 1.0035"), Ok(false));
    assert_eq!(parse(b"rustc 1.4294967295"), Ok(true));
}

#[test]
fn only_the_last_line_counts() {
    assert_eq!(parse(b"warning: something\nrustc 1.40.0\n"), Ok(true));
    assert_eq!(parse(b"rustc 1.40.0\r\n"), Ok(true));
    assert_eq!(parse(b"rustc 1.40.0\nrustc 1.20.0"), Ok(false));
    assert_eq!(parse(b"rustc 1.40.0\n\n"), Err(VersionError::NotRustc));
    assert_eq!(parse("\u{3000}\u{a0} rustc 1.40.0 \t\u{2028}".as_bytes()), Ok(true));
    // This is no white space.
    assert_eq!(
        parse("\u{200b}rustc 1.40.0".as_bytes()),
        Err(VersionError::NotRustc)
    );
}

#[test]
fn errors() {
    assert_eq!(parse(b"rustc 1.40.0 \xff"), Err(VersionError::NotUtf8));
    assert_eq!(parse(b"\xc3("), Err(VersionError::NotUtf8));
    assert_eq!(parse(b""), Err(VersionError::NotRustc));
    assert_eq!(parse(b"cargo 1.40.0"), Err(VersionError::NotRustc));
    assert_eq!(parse(b"rustcc 1.40.0"), Err(VersionError::NotRustc));
    assert_eq!(parse(b"rustc"), Err(VersionError::NoTriplet));
    assert_eq!(parse(b"rustc \n"), Err(VersionError::NoTriplet));
    assert_eq!(parse(b"rustc 2.0.0"), Err(VersionError::MajorNotOne));
    assert_eq!(parse(b"rustc 11.0.0"), Err(VersionError::MajorNotOne));
    assert_eq!(parse(b"rustc  1.40.0"), Err(VersionError::MajorNotOne));
    assert_eq!(parse(b"rustc 1 40"), Err(VersionError::NoMinor));
    assert_eq!(
        parse(b"rustc 1.."),
        Err(VersionError::BadMinor(NumberError::Empty))
    );
    assert_eq!(
        parse(b"rustc 1.-1.0"),
        Err(VersionError::BadMinor(NumberError::InvalidDigit))
    );
    assert_eq!(
        parse(b"rustc 1.+.0"),
        Err(VersionError::BadMinor(NumberError::InvalidDigit))
    );
    assert_eq!(
        parse(b"rustc 1.4294967296.0"),
        Err(VersionError::BadMinor(NumberError::TooLarge))
    );
    assert_eq!(
        parse(b"rustc 1.4294967296x.0"),
        Err(VersionError::BadMinor(NumberError::TooLarge))
    );
    assert_eq!(
        parse(b"rustc 1.429496729x6.0"),
        Err(VersionError::BadMinor(NumberError::InvalidDigit))
    );
}

#[test]
fn messages() {
    let message = |output: &[u8]| parse(output).unwrap_err().message("why not");
    assert_eq!(message(b"\xff"), "why not");
    assert_eq!(message(b"cargo 1.40.0"), "version does not start with 'rustc'");
    assert_eq!(message(b"rustc"), "output does not contain version triplet");
    assert_eq!(message(b"rustc 2.0.0"), "rustc major version is not 1");
    assert_eq!(
        message(b"rustc 1 40"),
        "rustc version does not contain minor version"
    );
    assert_eq!(
        message(b"rustc 1.."),
        "failed to parse minor version: cannot parse integer from empty string"
    );
    assert_eq!(
        message(b"rustc 1.x"),
        "failed to parse minor version: invalid digit found in string"
    );
    assert_eq!(
        message(b"rustc 1.4294967296"),
        "failed to parse minor version: number too large to fit in target type"
    );
    for text in ["", "x", "4294967296"] {
        let error = match text {
            "" => NumberError::Empty,
            "x" => NumberError::InvalidDigit,
            _ => NumberError::TooLarge,
        };
        assert_eq!(error.message(), text.parse::<u32>().unwrap_err().to_string());
    }
}
