use mazegen::MoltPixel;
use std::str::FromStr;

#[test]
fn test_pixel_rgb() {
    let pix = MoltPixel::rgb(1, 2, 3);

    assert_eq!(pix.red(), 1);
    assert_eq!(pix.green(), 2);
    assert_eq!(pix.blue(), 3);
    assert_eq!(pix.alpha(), 255);

    assert_eq!(pix.ipixel(), image::Rgba([1, 2, 3, 255]));
}

#[test]
fn test_pixel_rgba() {
    let pix = MoltPixel::rgba(4, 5, 6, 7);

    assert_eq!(pix.red(), 4);
    assert_eq!(pix.green(), 5);
    assert_eq!(pix.blue(), 6);
    assert_eq!(pix.alpha(), 7);

    assert_eq!(pix.ipixel(), image::Rgba([4, 5, 6, 7]));
}

#[test]
fn test_pixel_display() {
    let pix = MoltPixel::rgb(0, 15, 255);
    assert_eq!(&pix.to_string(), "#000fff");

    let pix = MoltPixel::rgba(0, 15, 255, 15);
    assert_eq!(&pix.to_string(), "#000fff.0f");
}

#[test]
fn test_pixel_fromstr() {
    assert_eq!(
        MoltPixel::from_str("#fa7268").unwrap(),
        MoltPixel::rgb(250, 114, 104)
    );

    assert_eq!(
        MoltPixel::from_str("#fa7268.0f").unwrap(),
        MoltPixel::rgba(250, 114, 104, 15)
    );

    // Wrong hex digits
    assert_eq!(
        MoltPixel::from_str("#faXY68"),
        Err("invalid pixel string".into())
    );

    // Wrong length
    assert_eq!(
        MoltPixel::from_str("#fa"),
        Err("invalid pixel string".into())
    );

    // Wrong lead character
    assert_eq!(
        MoltPixel::from_str("-012345"),
        Err("invalid pixel string".into())
    );

    // Wrong separator character
    assert_eq!(
        MoltPixel::from_str("#012345-67"),
        Err("invalid pixel string".into())
    );
}

#[test]
fn test_pixel_upper_case() {
    assert_eq!(
        MoltPixel::parse("#FA72Ab.C0"),
        Ok(MoltPixel::rgba(250, 114, 171, 192))
    );
}

#[test]
fn test_pixel_plus_sign_channel() {
    // A channel may be a plus sign and one digit.
    assert_eq!(MoltPixel::parse("#+f0a+1"), Ok(MoltPixel::rgb(15, 10, 1)));
    assert_eq!(
        MoltPixel::parse("#f+0a01"),
        Err(String::from("invalid pixel string"))
    );
    assert_eq!(
        MoltPixel::parse("#++0a01"),
        Err(String::from("invalid pixel string"))
    );
    assert_eq!(
        MoltPixel::parse("#-10a01"),
        Err(String::from("invalid pixel string"))
    );
}

#[test]
fn test_pixel_bad_alpha() {
    assert_eq!(
        MoltPixel::parse("#012345.6g"),
        Err(String::from("invalid pixel string"))
    );
    assert_eq!(
        MoltPixel::parse("#012345.678"),
        Err(String::from("invalid pixel string"))
    );
    assert_eq!(
        MoltPixel::parse("#01234\u{e9}"),
        Err(String::from("invalid pixel string"))
    );
    assert_eq!(MoltPixel::parse(""), Err(String::from("invalid pixel string")));
}

#[test]
fn test_pixel_text_roundtrip() {
    for v in vec![0u8, 1, 9, 10, 15, 16, 127, 128, 171, 254, 255] {
        for a in vec![0u8, 7, 254, 255] {
            let pix = MoltPixel::rgba(v, 255 - v, v / 2, a);
            assert_eq!(MoltPixel::parse(&pix.to_string()), Ok(pix));
        }
    }
    assert_eq!(MoltPixel::rgba(171, 205, 239, 255).to_string(), "#abcdef");
    assert_eq!(MoltPixel::rgba(1, 35, 69, 103).to_string(), "#012345.67");
}

#[test]
fn test_pixel_agrees_with_std_parsing() {
    // Every two-character channel reads as std's hexadecimal parsing reads it.
    let candidates = "0123456789abcdefABCDEFgG+-. #";
    for hi in candidates.chars() {
        for lo in candidates.chars() {
            let text = format!("#{}{}0000", hi, lo);
            let expected = u8::from_str_radix(&format!("{}{}", hi, lo).to_lowercase(), 16).ok();
            let got = MoltPixel::parse(&text).ok().map(|p| p.red());
            assert_eq!(got, expected);
        }
    }
}
