use sgp4::parse_2les;
use sgp4::parse_3les;
use sgp4::Classification;
use sgp4::Elements;
use sgp4::Error;

const LINE1: &str = "1 25544U 98067A   08264.51782528 -.00002182  00000-0 -11606-4 0  2927";
const LINE2: &str = "2 25544  51.6416 247.4627 0006703 130.5360 325.0288 15.72125391563537";

fn changed(line: &str, index: usize, byte: u8) -> Vec<u8> {
    let mut bytes = line.as_bytes().to_vec();
    bytes[index] = byte;
    bytes
}

fn error_message(result: Result<Elements, Error>) -> String {
    match result {
        Ok(_) => panic!("the TLE was accepted"),
        Err(error) => error.to_string(),
    }
}

#[test]
fn error_new_keeps_its_message() {
    assert_eq!(Error::new("a useful message".to_owned()).to_string(), "a useful message");
    assert_eq!(Error::new(format!("error code {}", 3)).to_string(), "error code 3");
    let error = Error::new("copied".to_owned());
    assert_eq!(error.clone().to_string(), "copied");
}

#[test]
fn line_lengths_are_checked() {
    let short = &LINE1.as_bytes()[..68];
    assert_eq!(
        error_message(Elements::from_tle(None, short, LINE2.as_bytes())),
        "line 1 must have 69 characters"
    );
    let mut long = LINE2.as_bytes().to_vec();
    long.push(b' ');
    assert_eq!(
        error_message(Elements::from_tle(None, LINE1.as_bytes(), &long)),
        "line 2 must have 69 characters"
    );
}

#[test]
fn line_numbers_are_checked() {
    assert_eq!(
        error_message(Elements::from_tle(None, &changed(LINE1, 0, b'2'), LINE2.as_bytes())),
        "line 1 must start with the character '1'"
    );
    assert_eq!(
        error_message(Elements::from_tle(None, LINE1.as_bytes(), &changed(LINE2, 0, b'1'))),
        "line 2 must start with the character '2'"
    );
}

#[test]
fn spaces_are_checked_in_order() {
    assert_eq!(
        error_message(Elements::from_tle(None, &changed(LINE1, 8, b'x'), LINE2.as_bytes())),
        "line 1:9 must be a space character"
    );
    let mut two_missing = changed(LINE1, 32, b'x');
    two_missing[17] = b'x';
    assert_eq!(
        error_message(Elements::from_tle(None, &two_missing, LINE2.as_bytes())),
        "line 1:18 must be a space character"
    );
    assert_eq!(
        error_message(Elements::from_tle(None, LINE1.as_bytes(), &changed(LINE2, 51, b'x'))),
        "line 2:52 must be a space character"
    );
}

#[test]
fn catalog_numbers_must_match() {
    assert_eq!(
        error_message(Elements::from_tle(None, LINE1.as_bytes(), &changed(LINE2, 6, b'5'))),
        "line 1 and 2 have different satellite numbers"
    );
}

#[test]
fn catalog_numbers_must_be_integers() {
    assert_eq!(
        error_message(Elements::from_tle(None, &changed(LINE1, 6, b'A'), LINE2.as_bytes())),
        "invalid digit found in string"
    );
    assert_eq!(
        error_message(Elements::from_tle(None, &changed(LINE1, 2, b' '), LINE2.as_bytes())),
        "invalid digit found in string"
    );
}

#[test]
fn bytes_that_are_not_utf8_are_refused() {
    assert_eq!(
        error_message(Elements::from_tle(None, &changed(LINE1, 3, 0xff), LINE2.as_bytes())),
        "invalid utf-8 sequence of 1 bytes from index 1"
    );
}

#[test]
fn changed_check_digit_is_refused() {
    for digit in b'0'..=b'9' {
        if digit != b'7' {
            assert_eq!(
                error_message(Elements::from_tle(None, &changed(LINE1, 68, digit), LINE2.as_bytes())),
                "bad checksum"
            );
            assert_eq!(
                error_message(Elements::from_tle(None, LINE1.as_bytes(), &changed(LINE2, 68, digit))),
                "bad checksum"
            );
        }
    }
    assert_eq!(
        error_message(Elements::from_tle(None, &changed(LINE1, 68, b' '), LINE2.as_bytes())),
        "bad checksum"
    );
}

#[test]
fn minus_signs_count_one_in_the_checksum() {
    // replacing a digit 1 by a minus sign keeps the checksum, so the TLE
    // fails later, on the drag term that is no longer a number
    let line1 = changed(LINE1, 55, b'-');
    assert_eq!(
        error_message(Elements::from_tle(None, &line1, LINE2.as_bytes())),
        "invalid float literal"
    );
}

#[test]
fn real_fields_take_what_f64_parsing_takes() {
    let line2 = "2 25544 5.1642e1 247.4627 0006703 130.5360 325.0288 15.72125391563533";
    let elements = Elements::from_tle(None, LINE1.as_bytes(), line2.as_bytes()).unwrap();
    assert_eq!(elements.inclination, "5.1642e1");
    assert_eq!(elements.inclination.parse::<f64>().unwrap(), 51.642);
    for line2 in [
        "2 25544      inf 247.4627 0006703 130.5360 325.0288 15.72125391563534",
        "2 25544      NaN 247.4627 0006703 130.5360 325.0288 15.72125391563534",
    ] {
        let elements = Elements::from_tle(None, LINE1.as_bytes(), line2.as_bytes()).unwrap();
        assert!(elements.inclination.parse::<f64>().is_ok());
    }
    let line1 = "1 25544U 98067A   08264.51782528    -2.2e-5  00000-0 -11606-4 0  2924";
    let elements = Elements::from_tle(None, line1.as_bytes(), LINE2.as_bytes()).unwrap();
    assert_eq!(elements.mean_motion_dot, "-2.2e-5");
}

#[test]
fn real_fields_that_are_not_numbers_are_refused() {
    assert_eq!(
        error_message(Elements::from_tle(
            None,
            LINE1.as_bytes(),
            "2 25544          247.4627 0006703 130.5360 325.0288 15.72125391563534".as_bytes()
        )),
        "cannot parse float from empty string"
    );
    assert_eq!(
        error_message(Elements::from_tle(
            None,
            LINE1.as_bytes(),
            "2 25544    51.6. 247.4627 0006703 130.5360 325.0288 15.72125391563536".as_bytes()
        )),
        "invalid float literal"
    );
}

fn with_check_digit(mut line: Vec<u8>) -> Vec<u8> {
    let sum: u32 = line[..68]
        .iter()
        .map(|c| match c {
            b'-' => 1,
            b'0'..=b'9' => (c - b'0') as u32,
            _ => 0,
        })
        .sum();
    line[68] = b'0' + (sum % 10) as u8;
    line
}

#[test]
fn real_fields_agree_with_f64_parsing() {
    let texts = [
        "inf", "Infinity", "-INF", "+iNf", "nan", "NAN", "1.", ".5", "1e5", "1E+5", "+0.5e-3", "12", "-7", "",
        ".", "-", "+", "e5", "1e", "1e+", "1..2", "in", "infin", "0x1", "1.5e2.", "--1", "1-", ".e1",
        "1.e1", "-.5E-0",
    ];
    for text in texts {
        let mut line2 = LINE2.as_bytes().to_vec();
        let field = format!("{:>8}", text);
        line2[8..16].copy_from_slice(field.as_bytes());
        let line2 = with_check_digit(line2);
        let result = Elements::from_tle(None, LINE1.as_bytes(), &line2);
        match text.parse::<f64>() {
            Ok(_) => assert_eq!(result.unwrap().inclination, text),
            Err(error) => assert_eq!(error_message(result), error.to_string(), "{}", text),
        }
    }
}

#[test]
fn classifications() {
    let elements = Elements::from_tle(None, &changed(LINE1, 7, b'S'), LINE2.as_bytes()).unwrap();
    assert_eq!(elements.classification, Classification::Secret);
    let elements = Elements::from_tle(None, &changed(LINE1, 7, b'C'), LINE2.as_bytes()).unwrap();
    assert_eq!(elements.classification, Classification::Classified);
    assert_eq!(
        error_message(Elements::from_tle(None, &changed(LINE1, 7, b'X'), LINE2.as_bytes())),
        "unknown classification"
    );
}

#[test]
fn blank_ephemeris_type_is_an_empty_integer() {
    assert_eq!(
        error_message(Elements::from_tle(None, &changed(LINE1, 62, b' '), LINE2.as_bytes())),
        "cannot parse integer from empty string"
    );
}

#[test]
fn launch_years_wrap_at_57() {
    let elements = Elements::from_tle(
        None,
        "1 25544U 56067A   08264.51782528 -.00002182  00000-0 -11606-4 0  2921".as_bytes(),
        LINE2.as_bytes(),
    )
    .unwrap();
    assert_eq!(elements.international_designator.unwrap(), "2056-067A");
    let elements = Elements::from_tle(
        None,
        "1 25544U 57067A   08264.51782528 -.00002182  00000-0 -11606-4 0  2922".as_bytes(),
        LINE2.as_bytes(),
    )
    .unwrap();
    assert_eq!(elements.international_designator.unwrap(), "1957-067A");
}

#[test]
fn unicode_white_space_is_trimmed() {
    let mut line1 = LINE1.as_bytes().to_vec();
    line1[64] = 0xc2;
    line1[65] = 0xa0;
    line1[66] = b'9';
    line1[67] = b'2';
    line1[68] = b'5';
    let elements = Elements::from_tle(None, &line1, LINE2.as_bytes()).unwrap();
    assert_eq!(elements.element_set_number, 92);
}

#[test]
fn object_name_is_handed_through() {
    let named = Elements::from_tle(Some("A NAME".to_owned()), LINE1.as_bytes(), LINE2.as_bytes()).unwrap();
    let unnamed = Elements::from_tle(None, LINE1.as_bytes(), LINE2.as_bytes()).unwrap();
    assert_eq!(named.object_name.as_deref(), Some("A NAME"));
    assert!(unnamed.object_name.is_none());
    assert_eq!(named.norad_id, unnamed.norad_id);
    assert_eq!(named.international_designator, unnamed.international_designator);
    assert_eq!(named.datetime.day, unnamed.datetime.day);
    assert_eq!(named.mean_motion, unnamed.mean_motion);
    assert_eq!(named.revolution_number, unnamed.revolution_number);
}

const TWO_TLES: &str = "1 25544U 98067A   20194.88612269 -.00002218  00000-0 -31515-4 0  9992\n\
    2 25544  51.6461 221.2784 0001413  89.1723 280.4612 15.49507896236008\n\
    1 42982U 98067NE  20194.06866787  .00008489  00000-0  72204-4 0  9997\n\
    2 42982  51.6338 155.6245 0002758 166.8841 193.2228 15.70564504154944";

#[test]
fn parse_2les_reads_each_pair_as_from_tle() {
    let group = parse_2les(TWO_TLES).unwrap();
    let lines: Vec<&str> = TWO_TLES.lines().collect();
    assert_eq!(group.len(), 2);
    for (index, elements) in group.iter().enumerate() {
        let single =
            Elements::from_tle(None, lines[2 * index].as_bytes(), lines[2 * index + 1].as_bytes()).unwrap();
        assert_eq!(elements.norad_id, single.norad_id);
        assert_eq!(elements.international_designator, single.international_designator);
        assert_eq!(elements.datetime.day, single.datetime.day);
        assert_eq!(elements.drag_term.mantissa, single.drag_term.mantissa);
        assert_eq!(elements.mean_motion, single.mean_motion);
        assert!(elements.object_name.is_none());
    }
    assert_eq!(group[1].international_designator.as_deref(), Some("1998-067NE"));
}

#[test]
fn final_line_ending_changes_nothing() {
    for ending in ["\n", "\r\n"] {
        let group = parse_2les(&format!("{}{}", TWO_TLES, ending)).unwrap();
        assert_eq!(group.len(), 2);
        assert_eq!(group[1].norad_id, 42982);
    }
    let crlf = TWO_TLES.replace('\n', "\r\n");
    let group = parse_2les(&crlf).unwrap();
    assert_eq!(group.len(), 2);
    assert_eq!(group[1].revolution_number, 15494);
}

#[test]
fn a_last_line_without_its_pair_is_ignored() {
    let group = parse_2les(&format!("{}\nsomething else", TWO_TLES)).unwrap();
    assert_eq!(group.len(), 2);
    assert_eq!(parse_2les("").unwrap().len(), 0);
}

#[test]
fn parse_2les_stops_at_the_first_bad_tle() {
    let bad = TWO_TLES.replacen("9992", "9993", 1).replacen("9997", "999", 1);
    assert_eq!(parse_2les(&bad).unwrap_err().to_string(), "bad checksum");
    let bad_second = TWO_TLES.replacen("9997", "999", 1);
    assert_eq!(parse_2les(&bad_second).unwrap_err().to_string(), "line 1 must have 69 characters");
}

#[test]
fn parse_3les_names_each_tle() {
    let text = "ISS (ZARYA)\r\n\
        1 25544U 98067A   20194.88612269 -.00002218  00000-0 -31515-4 0  9992\r\n\
        2 25544  51.6461 221.2784 0001413  89.1723 280.4612 15.49507896236008\n\
        KESTREL EYE IIM (KE2M)\n\
        1 42982U 98067NE  20194.06866787  .00008489  00000-0  72204-4 0  9997\n\
        2 42982  51.6338 155.6245 0002758 166.8841 193.2228 15.70564504154944\n\
        A NAME WITHOUT ITS TLE\n";
    let group = parse_3les(text).unwrap();
    assert_eq!(group.len(), 2);
    assert_eq!(group[0].object_name.as_deref(), Some("ISS (ZARYA)"));
    assert_eq!(group[1].object_name.as_deref(), Some("KESTREL EYE IIM (KE2M)"));
    assert_eq!(group[1].norad_id, 42982);
}

#[test]
fn parse_3les_keeps_names_that_are_not_ascii() {
    let text = format!("ÉTOILE ☆\n{}", TWO_TLES.lines().take(2).collect::<Vec<_>>().join("\n"));
    let group = parse_3les(&text).unwrap();
    assert_eq!(group.len(), 1);
    assert_eq!(group[0].object_name.as_deref(), Some("ÉTOILE ☆"));
}

#[test]
fn named_list_reads_as_unnamed_list() {
    let lines: Vec<&str> = TWO_TLES.lines().collect();
    let named = format!("FIRST\n{}\n{}\nSECOND\n{}\n{}", lines[0], lines[1], lines[2], lines[3]);
    let from_3les = parse_3les(&named).unwrap();
    let from_2les = parse_2les(TWO_TLES).unwrap();
    assert_eq!(from_3les.len(), from_2les.len());
    for (with_name, without_name) in from_3les.iter().zip(from_2les.iter()) {
        assert_eq!(with_name.norad_id, without_name.norad_id);
        assert_eq!(with_name.international_designator, without_name.international_designator);
        assert_eq!(with_name.mean_anomaly, without_name.mean_anomaly);
        assert_eq!(with_name.element_set_number, without_name.element_set_number);
    }
    assert_eq!(from_3les[0].object_name.as_deref(), Some("FIRST"));
    assert_eq!(from_3les[1].object_name.as_deref(), Some("SECOND"));
    let broken = named.replacen("9997", "9998", 1);
    assert_eq!(
        parse_3les(&broken).unwrap_err().to_string(),
        parse_2les(&TWO_TLES.replacen("9997", "9998", 1)).unwrap_err().to_string()
    );
}

#[test]
fn crlf_endings_read_as_lf_endings() {
    let named = format!("FIRST\n{}\n", TWO_TLES.lines().take(2).collect::<Vec<_>>().join("\n"));
    let crlf = named.replace('\n', "\r\n");
    let from_lf = parse_3les(&named).unwrap();
    let from_crlf = parse_3les(&crlf).unwrap();
    assert_eq!(from_lf.len(), 1);
    assert_eq!(from_crlf.len(), 1);
    assert_eq!(from_crlf[0].object_name, from_lf[0].object_name);
    assert_eq!(from_crlf[0].mean_motion, from_lf[0].mean_motion);
    let from_lf = parse_2les(TWO_TLES).unwrap();
    let from_crlf = parse_2les(&TWO_TLES.replace('\n', "\r\n")).unwrap();
    assert_eq!(from_lf.len(), from_crlf.len());
    assert_eq!(from_lf[1].revolution_number, from_crlf[1].revolution_number);
}
