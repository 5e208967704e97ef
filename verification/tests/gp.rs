use chrono::Datelike;
use chrono::Timelike;
use sgp4::parse_2les;
use sgp4::parse_3les;
use sgp4::Classification;
use sgp4::Elements;
use sgp4::EpochText;
use sgp4::ScaledDecimal;
use sgp4::j2000_days;

fn assert_eq_f64(first: f64, second: f64) {
    if second == 0.0 {
        assert_eq!(first, 0.0);
    } else {
        assert!((first - second).abs() / second < f64::EPSILON);
    }
}

fn decimal_value(text: &str) -> f64 {
    text.parse::<f64>().unwrap()
}

fn scaled(number: &ScaledDecimal) -> f64 {
    decimal_value(&number.mantissa) * 10.0_f64.powi(number.exponent as i32)
}

#[allow(deprecated)]
fn datetime(epoch: &EpochText) -> chrono::NaiveDateTime {
    let day = decimal_value(&epoch.day);
    let seconds = day.fract() * (24.0 * 60.0 * 60.0);
    chrono::NaiveDate::from_yo(epoch.year, day as u32).and_time(
        chrono::NaiveTime::from_num_seconds_from_midnight(
            seconds as u32,
            (seconds.fract() * 1e9).round() as u32,
        ),
    )
}

fn epoch(epoch: &EpochText) -> f64 {
    let datetime = datetime(epoch);
    j2000_days(datetime.year(), datetime.month(), datetime.day()) as f64 / 365.25
        + (datetime.num_seconds_from_midnight() as i32 - 43200) as f64
            / (24.0 * 60.0 * 60.0 * 365.25)
        + (datetime.nanosecond() as f64) / (24.0 * 60.0 * 60.0 * 1e9 * 365.25)
}

fn epoch_afspc_compatibility_mode(epoch: &EpochText) -> f64 {
    let datetime = datetime(epoch);
    (((j2000_days(datetime.year(), datetime.month(), datetime.day()) + 730531) as f64
        + 1721013.5
        + datetime.hour() as f64 / 24.0
        + datetime.minute() as f64 / (24.0 * 60.0)
        + datetime.second() as f64 / (24.0 * 60.0 * 60.0)
        + datetime.nanosecond() as f64 / (24.0 * 60.0 * 60.0 * 1e9))
        - 2451545.0)
        / 365.25
}

const ISS_LINE1: &str = "1 25544U 98067A   08264.51782528 -.00002182  00000-0 -11606-4 0  2927";
const ISS_LINE2: &str = "2 25544  51.6416 247.4627 0006703 130.5360 325.0288 15.72125391563537";

#[allow(deprecated)]
#[test]
fn test_from_tle() {
    let elements = Elements::from_tle(
        Some("ISS (ZARYA)".to_owned()),
        "1 25544U 98067A   08264.51782528 -.00002182  00000-0 -11606-4 0  2927".as_bytes(),
        "2 25544  51.6416 247.4627 0006703 130.5360 325.0288 15.72125391563537".as_bytes(),
    )
    .unwrap();
    match elements.object_name.as_ref() {
        Some(object_name) => assert_eq!(object_name, "ISS (ZARYA)"),
        None => panic!(),
    }
    assert_eq!(elements.norad_id, 25544);
    assert!(matches!(
        elements.classification,
        Classification::Unclassified
    ));
    assert_eq!(
        elements.international_designator.as_ref().unwrap(),
        "1998-067A"
    );
    assert_eq!(
        datetime(&elements.datetime),
        chrono::NaiveDate::from_yo(2008, 264).and_time(
            chrono::NaiveTime::from_num_seconds_from_midnight(44740, 104192001)
        )
    );
    assert_eq_f64(epoch(&elements.datetime), 8.720103559972621);
    assert_eq_f64(
        epoch_afspc_compatibility_mode(&elements.datetime),
        8.7201035599722125,
    );
    assert_eq_f64(decimal_value(&elements.mean_motion_dot), -0.00002182);
    assert_eq_f64(scaled(&elements.mean_motion_ddot), 0.0);
    assert_eq_f64(scaled(&elements.drag_term), -0.11606e-4);
    assert_eq!(elements.ephemeris_type, 0);
    assert_eq!(elements.element_set_number, 292);
    assert_eq_f64(decimal_value(&elements.inclination), 51.6416);
    assert_eq_f64(decimal_value(&elements.right_ascension), 247.4627);
    assert_eq_f64(decimal_value(&elements.eccentricity), 0.0006703);
    assert_eq_f64(decimal_value(&elements.argument_of_perigee), 130.5360);
    assert_eq_f64(decimal_value(&elements.mean_anomaly), 325.0288);
    assert_eq_f64(decimal_value(&elements.mean_motion), 15.72125391);
    assert_eq!(elements.revolution_number, 56353);
    let elements = Elements::from_tle(
        None,
        "1 11801U          80230.29629788  .01431103  00000-0  14311-1 0    13".as_bytes(),
        "2 11801  46.7916 230.4354 7318036  47.4722  10.4117  2.28537848    13".as_bytes(),
    )
    .unwrap();
    assert!(elements.object_name.is_none());
    assert_eq!(elements.norad_id, 11801);
    assert!(matches!(
        elements.classification,
        Classification::Unclassified
    ));
    assert!(elements.international_designator.is_none());
    assert_eq!(
        datetime(&elements.datetime),
        chrono::NaiveDate::from_yo(1980, 230).and_time(
            chrono::NaiveTime::from_num_seconds_from_midnight(25600, 136832000)
        )
    );
    assert_eq_f64(epoch(&elements.datetime), -19.373589875756331);
    assert_eq_f64(
        epoch_afspc_compatibility_mode(&elements.datetime),
        -19.373589875756632,
    );
    assert_eq_f64(decimal_value(&elements.mean_motion_dot), 0.01431103);
    assert_eq_f64(scaled(&elements.mean_motion_ddot), 0.0);
    assert_eq_f64(scaled(&elements.drag_term), 0.014311);
    assert_eq!(elements.ephemeris_type, 0);
    assert_eq!(elements.element_set_number, 1);
    assert_eq_f64(decimal_value(&elements.inclination), 46.7916);
    assert_eq_f64(decimal_value(&elements.right_ascension), 230.4354);
    assert_eq_f64(decimal_value(&elements.eccentricity), 0.7318036);
    assert_eq_f64(decimal_value(&elements.argument_of_perigee), 47.4722);
    assert_eq_f64(decimal_value(&elements.mean_anomaly), 10.4117);
    assert_eq_f64(decimal_value(&elements.mean_motion), 2.28537848);
    assert_eq!(elements.revolution_number, 1);
}

#[test]
fn test_parse_2les() {
    let elements_group = parse_2les(
        "1 25544U 98067A   20194.88612269 -.00002218  00000-0 -31515-4 0  9992\n\
         2 25544  51.6461 221.2784 0001413  89.1723 280.4612 15.49507896236008\n\
         1 42982U 98067NE  20194.06866787  .00008489  00000-0  72204-4 0  9997\n\
         2 42982  51.6338 155.6245 0002758 166.8841 193.2228 15.70564504154944\n",
    )
    .unwrap();
    assert_eq!(elements_group.len(), 2);
}

#[test]
fn test_parse_3les() {
    let elements_group = parse_3les(
        "ISS (ZARYA)\n\
         1 25544U 98067A   20194.88612269 -.00002218  00000-0 -31515-4 0  9992\n\
         2 25544  51.6461 221.2784 0001413  89.1723 280.4612 15.49507896236008\n\
         KESTREL EYE IIM (KE2M)\n\
         1 42982U 98067NE  20194.06866787  .00008489  00000-0  72204-4 0  9997\n\
         2 42982  51.6338 155.6245 0002758 166.8841 193.2228 15.70564504154944\n",
    )
    .unwrap();
    assert_eq!(elements_group.len(), 2);
}

#[test]
fn from_tle_keeps_the_exact_decimal_text() {
    let elements = Elements::from_tle(None, ISS_LINE1.as_bytes(), ISS_LINE2.as_bytes()).unwrap();
    assert_eq!(elements.datetime.year, 2008);
    assert_eq!(elements.datetime.day, "264.51782528");
    assert_eq!(elements.mean_motion_dot, "-.00002182");
    assert_eq!(elements.mean_motion_ddot.mantissa, ".00000");
    assert_eq!(elements.mean_motion_ddot.exponent, 0);
    assert_eq!(elements.drag_term.mantissa, "-.11606");
    assert_eq!(elements.drag_term.exponent, -4);
    assert_eq!(elements.inclination, "51.6416");
    assert_eq!(elements.right_ascension, "247.4627");
    assert_eq!(elements.eccentricity, ".0006703");
    assert_eq!(elements.argument_of_perigee, "130.5360");
    assert_eq!(elements.mean_anomaly, "325.0288");
    assert_eq!(elements.mean_motion, "15.72125391");
}
