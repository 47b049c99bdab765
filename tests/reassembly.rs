use atlas::builder::{create_builder, extract_builders, Format};
use atlas::clock::expected_next_scan_time;
use atlas::full_record::{HeartbeatV1, IntoHeartbeats, ParseHeartbeatError};
use atlas::heartbeat::{extract_heartbeats, month_corrected_text, EfoyAction, Heartbeat, SkipReason};
use atlas::message::RawMessage;
use atlas::source::Source;
use atlas::sutron::{Error as SutronError, Log, Record};
use std::str::FromStr;
use atlas::units::{
    Celsius, Decimal, Degree, Kilobyte, MeasurementProgram, Meter, Millibar, OrionPercentage,
    Percentage, Volt,
};
use atlas::watch::on_change;
use atlas::Error;
use chrono::{TimeZone, Utc};

const IMEI: &str = "300234063909200";

fn ts(y: i32, mo: u32, d: u32, h: u32, mi: u32, s: u32) -> i64 {
    Utc.with_ymd_and_hms(y, mo, d, h, mi, s).unwrap().timestamp()
}

fn dec(negative: bool, mantissa: u64, scale: u32) -> Decimal {
    Decimal { negative, mantissa, scale }
}

fn message(payload: &str, time: i64) -> RawMessage {
    RawMessage::new(payload.as_bytes().to_vec(), IMEI.to_string(), time)
}

fn v1_fields(external: &str, scan: &str) -> Vec<String> {
    let mut f: Vec<String> = (0..49).map(|i| format!("{}.25", i)).collect();
    f[0] = "0".to_string();
    f[1] = external.to_string();
    f[2] = "962.690".to_string();
    f[3] = "36.487".to_string();
    f[4] = "1".to_string();
    f[11] = scan.to_string();
    f[26] = "16.1175".to_string();
    f[37] = "4.68509".to_string();
    f[40] = "4.69742".to_string();
    f
}

fn one_v1_message() -> RawMessage {
    let payload = v1_fields("11.095", "06/31/15 18:02:18").join(",");
    message(&payload, ts(2015, 7, 31, 23, 1, 59))
}

fn two_v1_messages() -> Vec<RawMessage> {
    let mut f = v1_fields("10.210", "07/08/16 12:00:00");
    f[20] = "5.25".to_string();
    let payload = f.join(",");
    let at = payload.find(",5.25,").unwrap() + 3;
    vec![
        message(&payload[..at], ts(2016, 8, 9, 1, 5, 2)),
        message(&payload[at..], ts(2016, 8, 9, 1, 5, 15)),
    ]
}

fn v2_rows() -> Vec<&'static str> {
    vec![
        "08/16/16 12:01:47,23.4,11.8,740991025.152,995349954.56",
        "9.915,942.240,40.932",
        "08/16/16 12:01:58",
        "08/16/16 12:40:24,20035104,-40.277,5164.539,282005.084,0,42,-0.488,-0.108,66.329918,-38.174053",
        "08/11/16 18:25:35,1,Could not connect to housing",
        "08/11/2016 19:00:00,start",
        "08/11/2016 23:00:00,success",
        "08/12/2016 11:00:00,start",
        "08/12/2016 15:00:00,success",
        "12.4,4.097,4.132",
    ]
}

fn v2_body(first_line: &str) -> String {
    let mut body = format!("{}\r\n", first_line);
    for row in v2_rows() {
        body.push_str(row);
        body.push_str("\r\n");
    }
    body
}

fn one_v2_message() -> RawMessage {
    let payload = format!("0{}", v2_body("ATHB02001"));
    message(&payload, ts(2016, 8, 16, 18, 1, 58))
}

fn framed(body: &str, id: u64, cuts: &[usize], time: i64) -> Vec<RawMessage> {
    let mut out = Vec::new();
    let mut start = 0;
    let mut bounds: Vec<usize> = cuts.to_vec();
    bounds.push(body.len());
    for (seq, end) in bounds.iter().enumerate() {
        let piece = &body[start..*end];
        let payload = if seq == 0 {
            format!("1,{},{},{}:{}", id, seq, body.len(), piece)
        } else {
            format!("1,{},{}:{}", id, seq, piece)
        };
        out.push(message(&payload, time + seq as i64));
        start = *end;
    }
    out
}

fn two_v2_messages() -> Vec<RawMessage> {
    framed(&v2_body("ATHB02002"), 7, &[100], ts(2016, 8, 12, 23, 0, 48))
}

fn other_group_message() -> RawMessage {
    let body = v2_body("ATHB02002");
    message(&format!("1,8,1:{}", &body[100..]), ts(2016, 8, 12, 22, 1, 3))
}

#[test]
fn extract_builders_empty_vector() {
    let mut messages = Vec::new();
    let builders = extract_builders(&mut messages);
    assert!(builders.is_empty());
    assert!(messages.is_empty());
}

#[test]
fn extract_builders_one_v1() {
    let mut messages = vec![one_v1_message()];
    let builders = extract_builders(&mut messages);
    assert_eq!(1, builders.len());
    assert!(messages.is_empty());
}

#[test]
fn extract_builders_two_v1_one_heartbeat() {
    let mut messages = two_v1_messages();
    let builders = extract_builders(&mut messages);
    assert_eq!(1, builders.len());
    assert!(messages.is_empty());
}

#[test]
fn extract_builders_two_v1_two_heartbeats() {
    let mut messages = vec![one_v1_message(), one_v1_message()];
    let builders = extract_builders(&mut messages);
    assert_eq!(2, builders.len());
    assert!(messages.is_empty());
}

#[test]
fn extract_builders_two_v1_one_heartbeat_one_leftover() {
    let leftover = two_v1_messages()[1].clone();
    let mut messages = vec![one_v1_message(), leftover.clone()];
    let builders = extract_builders(&mut messages);
    assert_eq!(1, builders.len());
    assert_eq!(vec![leftover], messages);
}

#[test]
fn extract_builders_junk_message() {
    let leftover = two_v1_messages()[1].clone();
    let mut messages = vec![leftover.clone()];
    let builders = extract_builders(&mut messages);
    assert!(builders.is_empty());
    assert_eq!(vec![leftover], messages);
}

#[test]
fn extract_builders_incomplete_message() {
    let leftover = two_v1_messages()[0].clone();
    let mut messages = vec![leftover.clone()];
    let builders = extract_builders(&mut messages);
    assert!(builders.is_empty());
    assert_eq!(vec![leftover], messages);
}

#[test]
fn extract_builders_incomplete_message_then_complete_message() {
    let leftover = two_v1_messages()[0].clone();
    let mut messages = two_v1_messages();
    messages.insert(0, leftover.clone());
    let builders = extract_builders(&mut messages);
    assert_eq!(1, builders.len());
    assert_eq!(vec![leftover], messages);
}

#[test]
fn extract_builders_one_v2() {
    let mut messages = vec![one_v2_message()];
    let builders = extract_builders(&mut messages);
    assert_eq!(1, builders.len());
    assert!(messages.is_empty());
}

#[test]
fn extract_builders_two_v2_one_heartbeat() {
    let mut messages = two_v2_messages();
    let builders = extract_builders(&mut messages);
    assert_eq!(1, builders.len());
    assert!(messages.is_empty());
}

#[test]
fn extract_builders_two_v2_second_message_different_number() {
    let mut messages = vec![two_v2_messages()[0].clone(), other_group_message()];
    let messages_orig = messages.clone();
    let builders = extract_builders(&mut messages);
    assert!(builders.is_empty());
    assert_eq!(messages_orig, messages);
}

#[test]
fn extract_builders_two_v2_one_heartbeat_one_leftover() {
    let leftover = two_v2_messages()[1].clone();
    let mut messages = vec![one_v2_message(), leftover.clone()];
    let builders = extract_builders(&mut messages);
    assert_eq!(1, builders.len());
    assert_eq!(vec![leftover], messages);
}

#[test]
fn extract_builders_three_v2_one_heartbeat_one_leftover() {
    let leftover = other_group_message();
    let mut messages = two_v2_messages();
    messages.push(leftover.clone());
    let builders = extract_builders(&mut messages);
    assert_eq!(1, builders.len());
    assert_eq!(vec![leftover], messages);
}

#[test]
fn create_builder_v1_ok() {
    let _ = create_builder(one_v1_message()).unwrap();
}

#[test]
fn create_builder_v1_not_ok() {
    let message = two_v1_messages()[1].clone();
    match create_builder(message.clone()) {
        Err(Error::RejectedMessage(reject)) => assert_eq!(message, reject),
        _ => panic!("Should have rejected message"),
    }
}

#[test]
fn builder_push_ok_v1() {
    let messages = two_v1_messages();
    let mut builder = create_builder(messages[0].clone()).unwrap();
    assert!(builder.push(messages[1].clone()).is_ok());
}

#[test]
fn builder_push_full_v1() {
    let messages = two_v1_messages();
    let mut builder = create_builder(messages[0].clone()).unwrap();
    builder.push(messages[1].clone()).unwrap();
    match builder.push(messages[1].clone()) {
        Err(Error::RejectedMessage(message)) => assert_eq!(messages[1], message),
        _ => panic!("Should have rejected message"),
    }
    assert!(builder.full());
}

#[test]
fn builder_push_full_v2() {
    let messages = two_v2_messages();
    let mut builder = create_builder(messages[0].clone()).unwrap();
    builder.push(messages[1].clone()).unwrap();
    assert!(builder.full());
    match builder.push(messages[1].clone()) {
        Err(Error::RejectedMessage(message)) => assert_eq!(messages[1], message),
        _ => panic!("Should have rejected message"),
    }
    assert!(builder.full());
}

#[test]
fn heartbeat_v1() {
    let heartbeat = Heartbeat::from_message(one_v1_message()).unwrap();
    assert_eq!(ts(2015, 7, 31, 23, 1, 59), heartbeat.start_time);
    assert_eq!(Celsius(dec(false, 11095, 3)), heartbeat.external_temperature);
    assert_eq!(Celsius(dec(false, 161175, 4)), heartbeat.mount_temperature);
    assert_eq!(Millibar(dec(false, 962690, 3)), heartbeat.pressure);
    assert_eq!(Percentage(dec(false, 36487, 3)), heartbeat.humidity);
    assert_eq!(OrionPercentage(dec(false, 468509, 5)), heartbeat.soc1);
    assert_eq!(OrionPercentage(dec(false, 469742, 5)), heartbeat.soc2);
    assert_eq!(ts(2015, 7, 31, 18, 2, 18), heartbeat.last_scan.start);
}

#[test]
fn heartbeat_from_message_too_short() {
    assert!(Heartbeat::from_message(two_v2_messages()[0].clone()).is_err());
}

#[test]
fn heartbeat_v2() {
    let heartbeat = Heartbeat::from_message(one_v2_message()).unwrap();
    assert_eq!(ts(2016, 8, 16, 18, 1, 58), heartbeat.start_time);
    assert_eq!(Celsius(dec(false, 9915, 3)), heartbeat.external_temperature);
    assert_eq!(Celsius(dec(false, 124, 1)), heartbeat.mount_temperature);
    assert_eq!(Millibar(dec(false, 942240, 3)), heartbeat.pressure);
    assert_eq!(Percentage(dec(false, 40932, 3)), heartbeat.humidity);
    assert_eq!(OrionPercentage(dec(false, 4097, 3)), heartbeat.soc1);
    assert_eq!(OrionPercentage(dec(false, 4132, 3)), heartbeat.soc2);
    let scan_on = heartbeat.last_scan_on.unwrap();
    assert_eq!(ts(2016, 8, 16, 12, 1, 47), scan_on.datetime);
    assert_eq!(Celsius(dec(false, 118, 1)), scan_on.scanner_temperature);
    assert_eq!(Volt(dec(false, 234, 1)), scan_on.scanner_voltage);
    assert_eq!(Kilobyte(dec(false, 740991025152, 3)), scan_on.memory_external);
    assert_eq!(Kilobyte(dec(false, 99534995456, 2)), scan_on.memory_internal);
    let scan = heartbeat.last_scan;
    assert_eq!(ts(2016, 8, 16, 12, 1, 58), scan.start);
    assert_eq!(ts(2016, 8, 16, 12, 40, 24), scan.end.unwrap());
    let detail = scan.detail.unwrap();
    assert_eq!(20035104, detail.num_points);
    assert_eq!(Meter(dec(true, 40277, 3)), detail.minimum_range);
    assert_eq!(Meter(dec(false, 5164539, 3)), detail.maximum_range);
    assert_eq!(Kilobyte(dec(false, 282005084, 3)), detail.file_size);
    assert_eq!(0, detail.minimum_amplitude);
    assert_eq!(42, detail.maximum_amplitude);
    assert_eq!(Degree(dec(true, 488, 3)), detail.roll);
    assert_eq!(Degree(dec(true, 108, 3)), detail.pitch);
    assert_eq!(Degree(dec(false, 66329918, 6)), detail.latitude);
    assert_eq!(Degree(dec(true, 38174053, 6)), detail.longitude);
    let scan_skip = heartbeat.last_scan_skip.unwrap();
    assert_eq!(ts(2016, 8, 11, 18, 25, 35), scan_skip.datetime);
    assert_eq!(SkipReason::CouldNotConnectToHousing, scan_skip.reason);
    let efoy1 = heartbeat.last_efoy1_action.unwrap();
    assert_eq!(EfoyAction::Start(ts(2016, 8, 11, 19, 0, 0)), efoy1);
    let efoy2 = heartbeat.last_efoy2_action.unwrap();
    assert_eq!(EfoyAction::Start(ts(2016, 8, 12, 11, 0, 0)), efoy2);
}

#[test]
fn extract_heartbeats_four() {
    let mut messages = vec![one_v1_message()];
    messages.extend(two_v1_messages().into_iter());
    messages.push(one_v2_message());
    messages.extend(two_v2_messages().into_iter());
    let heartbeats = extract_heartbeats(&mut messages).unwrap();
    assert_eq!(4, heartbeats.len());
}

#[test]
fn empty_storage() {
    let source = Source::new();
    let heartbeats = source.heartbeats(Vec::new()).unwrap();
    assert!(heartbeats.is_empty());
}

#[test]
fn one_message() {
    let source = Source::new();
    let heartbeats = source.heartbeats(vec![one_v1_message()]).unwrap();
    assert_eq!(1, heartbeats.len());
}

#[test]
fn filter() {
    let mut source = Source::new();
    source.whitelist("300234063909201");
    let heartbeats = source.heartbeats(vec![one_v1_message()]).unwrap();
    assert!(heartbeats.is_empty());
}

#[test]
fn sort_by_time() {
    let mut messages = two_v1_messages();
    let second = messages.pop().unwrap();
    let first = messages.pop().unwrap();
    let source = Source::new();
    let heartbeats = source.heartbeats(vec![second, first]).unwrap();
    assert_eq!(1, heartbeats.len());
}

#[test]
fn next_scan_in_an_hour() {
    assert_eq!(ts(2016, 7, 22, 6, 0, 0), expected_next_scan_time(ts(2016, 7, 22, 5, 0, 0)));
}

#[test]
fn next_scan_tomorrow() {
    assert_eq!(ts(2016, 7, 22, 0, 0, 0), expected_next_scan_time(ts(2016, 7, 21, 23, 0, 0)));
}

#[test]
fn next_scan_on_a_boundary_moves_a_full_slot() {
    assert_eq!(ts(2016, 7, 22, 12, 0, 0), expected_next_scan_time(ts(2016, 7, 22, 6, 0, 0)));
}

#[test]
fn leftovers_rerun_gives_same_leftovers() {
    let junk = two_v1_messages()[1].clone();
    let partial = two_v2_messages()[0].clone();
    let mut messages = vec![junk.clone(), one_v1_message(), partial.clone(), other_group_message()];
    let builders = extract_builders(&mut messages);
    assert_eq!(1, builders.len());
    let leftovers = messages.clone();
    let again = extract_builders(&mut messages);
    assert!(again.is_empty());
    assert_eq!(leftovers, messages);
}

#[test]
fn leftovers_rerun_can_complete_a_record() {
    let parts = two_v1_messages();
    let start = parts[0].clone();
    let rest = parts[1].clone();
    let mut messages = vec![start.clone(), one_v1_message(), rest.clone()];
    let builders = extract_builders(&mut messages);
    assert_eq!(1, builders.len());
    assert_eq!(vec![start, rest], messages);
    let again = extract_builders(&mut messages);
    assert_eq!(1, again.len());
    assert!(messages.is_empty());
}

#[test]
fn leftovers_keep_input_order() {
    let junk_a = message("zzz", 1);
    let junk_b = message("yyy", 2);
    let parts = two_v1_messages();
    let mut messages = vec![junk_a.clone(), parts[0].clone(), junk_b.clone(), one_v2_message()];
    let builders = extract_builders(&mut messages);
    assert_eq!(1, builders.len());
    assert_eq!(vec![junk_a, parts[0].clone(), junk_b], messages);
}

#[test]
fn full_format_one_builder_has_all_fields() {
    let messages = two_v1_messages();
    let mut builder = create_builder(messages[0].clone()).unwrap();
    assert!(!builder.full());
    builder.push(messages[1].clone()).unwrap();
    assert!(builder.full());
    let mut payload = Vec::new();
    for m in builder.messages() {
        payload.extend_from_slice(&m.payload);
    }
    assert_eq!(49, payload.split(|b| *b == b',').count());
}

#[test]
fn format_two_split_points_do_not_matter() {
    let body = v2_body("ATHB02003");
    let time = ts(2016, 8, 20, 6, 0, 0);
    let one_cut = framed(&body, 11, &[40], time);
    let three_cuts = framed(&body, 12, &[5, 170, 300], time);
    let mut a = one_cut.clone();
    let mut b = three_cuts.clone();
    let ha = extract_heartbeats(&mut a).unwrap();
    let hb = extract_heartbeats(&mut b).unwrap();
    assert!(a.is_empty() && b.is_empty());
    assert_eq!(1, ha.len());
    assert_eq!(ha, hb);
    assert_eq!(Celsius(dec(false, 9915, 3)), ha[0].external_temperature);
}

#[test]
fn mismatched_group_leaves_builder_alone() {
    let messages = two_v2_messages();
    let mut builder = create_builder(messages[0].clone()).unwrap();
    let before = builder.messages().clone();
    let stranger = other_group_message();
    match builder.push(stranger.clone()) {
        Err(Error::RejectedMessage(m)) => assert_eq!(stranger, m),
        _ => panic!("a message of another group was accepted"),
    }
    assert_eq!(&before, builder.messages());
    assert!(!builder.full());
}

#[test]
fn scenario_single_format_one_message() {
    let mut messages = vec![one_v1_message()];
    let builders = extract_builders(&mut messages);
    assert_eq!(1, builders.len());
    assert!(messages.is_empty());
    assert!(builders[0].to_heartbeat().is_ok());
}

#[test]
fn scenario_two_format_one_messages_fill_a_record() {
    let parts = two_v1_messages();
    let mut builder = create_builder(parts[0].clone()).unwrap();
    assert_eq!(Format::One, builder.format());
    assert!(create_builder(parts[1].clone()).is_err());
    builder.push(parts[1].clone()).unwrap();
    assert!(builder.full());
}

#[test]
fn scenario_two_unrelated_format_one_starters() {
    let mut messages = vec![one_v1_message(), one_v1_message()];
    let builders = extract_builders(&mut messages);
    assert_eq!(2, builders.len());
    assert!(messages.is_empty());
}

#[test]
fn scenario_mismatched_pair_full_first() {
    let stranger = other_group_message();
    let mut messages = vec![one_v2_message(), stranger.clone()];
    let builders = extract_builders(&mut messages);
    assert_eq!(1, builders.len());
    assert_eq!(1, builders[0].messages().len());
    assert_eq!(vec![stranger], messages);
}

#[test]
fn scenario_orphan_continuation() {
    let orphan = two_v2_messages()[1].clone();
    let mut messages = vec![orphan.clone()];
    let builders = extract_builders(&mut messages);
    assert!(builders.is_empty());
    assert_eq!(vec![orphan], messages);
}

#[test]
fn scenario_framed_pair_then_trailing_message() {
    let trailing = message("junk,1,2", 99);
    let mut messages = two_v2_messages();
    messages.push(trailing.clone());
    let builders = extract_builders(&mut messages);
    assert_eq!(1, builders.len());
    assert_eq!(vec![trailing], messages);
}

#[test]
fn format_one_bad_field_is_named() {
    let payload = v1_fields("warm", "06/31/15 18:02:18").join(",");
    let result = Heartbeat::from_message(message(&payload, 0));
    assert_eq!(Err(Error::BadField(1)), result);
    let payload = v1_fields("11.0", "13/31/15 18:02:18").join(",");
    let result = Heartbeat::from_message(message(&payload, 0));
    assert_eq!(Err(Error::BadField(11)), result);
}

#[test]
fn format_two_missing_row_is_named() {
    let payload = "0ATHB02001\r\n08/16/16 12:01:47,23.4,11.8,1.5,2.5\r\n9.915,942.240,40.932\r\n";
    let result = Heartbeat::from_message(message(payload, 0));
    assert_eq!(Err(Error::BadRow(3)), result);
}

#[test]
fn format_two_unknown_codes() {
    let body = v2_body("ATHB02001").replace(",1,Could not", ",9,Could not");
    let result = Heartbeat::from_message(message(&format!("0{}", body), 0));
    assert_eq!(
        Err(Error::UnknownSkipReason(b"9".to_vec(), b"Could not connect to housing".to_vec())),
        result
    );
    let body = v2_body("ATHB02001").replace("19:00:00,start", "19:00:00,explode");
    let result = Heartbeat::from_message(message(&format!("0{}", body), 0));
    assert_eq!(Err(Error::UnknownEfoyAction(b"explode".to_vec())), result);
}

#[test]
fn skip_reason_codes() {
    assert_eq!(SkipReason::SchedulerNotEnabled, SkipReason::new(b"2", b"x").unwrap());
    assert_eq!(SkipReason::ScannerError(b"laser".to_vec()), SkipReason::new(b"3", b"laser").unwrap());
    assert_eq!(SkipReason::TooManyRetries, SkipReason::new(b"4", b"").unwrap());
    assert!(SkipReason::new(b"", b"").is_err());
}

#[test]
fn measurement_program_codes() {
    assert_eq!(Some(MeasurementProgram::Reflector), MeasurementProgram::from_code(b"4"));
    assert_eq!(Some(MeasurementProgram::FiftyKiloHertz), MeasurementProgram::from_code(b"0"));
    assert_eq!(None, MeasurementProgram::from_code(b"5"));
    assert_eq!(None, MeasurementProgram::from_code(b"01"));
    assert_eq!(Ok(MeasurementProgram::ThreeHundredKiloHertz), "3".parse::<MeasurementProgram>());
    assert_eq!(Err(b"x".to_vec()), "x".parse::<MeasurementProgram>());
}

#[test]
fn from_message_rejects_non_starter() {
    let orphan = message("hello", 5);
    assert_eq!(Err(Error::RejectedMessage(orphan.clone())), Heartbeat::from_message(orphan));
}

#[test]
fn source_sorts_devices_by_start_time() {
    let early = one_v1_message();
    let mut late = two_v1_messages();
    for m in late.iter_mut() {
        m.imei = "300234063909201".to_string();
    }
    let mut all = late.clone();
    all.push(early.clone());
    let heartbeats = Source::new().heartbeats(all).unwrap();
    assert_eq!(2, heartbeats.len());
    assert_eq!(early.time_of_session, heartbeats[0].start_time);
    assert_eq!(late[0].time_of_session, heartbeats[1].start_time);
}

#[test]
fn source_fails_on_bad_record() {
    let payload = v1_fields("warm", "06/31/15 18:02:18").join(",");
    let result = Source::new().heartbeats(vec![message(&payload, 0), one_v1_message()]);
    assert_eq!(Err(Error::BadField(1)), result);
}

#[test]
fn change_decisions() {
    let a = on_change(true, false);
    assert!(a.rewatch && !a.refresh);
    let b = on_change(false, true);
    assert!(!b.rewatch && b.refresh);
}

fn full_record(external: &str, dcl4: &str, scan: &str) -> String {
    let mut f = v1_fields(external, scan);
    f[48] = dcl4.to_string();
    f[20] = "5.25".to_string();
    f.join(",")
}

fn split_record(payload: &str) -> Vec<RawMessage> {
    let at = payload.find(",5.25,").unwrap() + 3;
    vec![
        message(&payload[..at], ts(2016, 7, 14, 0, 2, 40)),
        message(&payload[at..], ts(2016, 7, 14, 0, 2, 52)),
    ]
}

#[test]
fn no_message_no_heartbeat() {
    let messages: Vec<RawMessage> = vec![];
    let heartbeats = messages.into_heartbeats();
    assert_eq!(0, heartbeats.len());
}

#[test]
fn one_message_one_heartbeat() {
    let payload = full_record("6.181", "-0.344048", "06/29/15 00:02:07");
    let messages = vec![message(&payload, ts(2015, 7, 29, 2, 2, 0))];
    let mut heartbeats = messages.into_heartbeats();
    assert_eq!(1, heartbeats.len());
    let heartbeat = heartbeats.pop().unwrap().unwrap();
    assert_eq!(ts(2015, 7, 29, 2, 2, 0), heartbeat.messages[0].time_of_session);
    assert_eq!(Celsius(dec(false, 6181, 3)), heartbeat.temperature_external);
    assert_eq!(ts(2015, 7, 29, 0, 2, 7), heartbeat.scan_start_datetime);
    assert_eq!(OrionPercentage(dec(true, 344048, 6)), heartbeat.dcl4);
}

#[test]
fn two_messages_one_heartbeat() {
    let payload = full_record("10.210", "-0.340767", "06/13/16 18:00:00");
    let messages = split_record(&payload);
    let mut heartbeats = messages.into_heartbeats();
    assert_eq!(1, heartbeats.len());
    let heartbeat = heartbeats.pop().unwrap().unwrap();
    assert_eq!(Celsius(dec(false, 10210, 3)), heartbeat.temperature_external);
    assert_eq!(OrionPercentage(dec(true, 340767, 6)), heartbeat.dcl4);
}

#[test]
fn two_messages_two_heartbeats() {
    let payload = full_record("6.181", "-0.344048", "06/29/15 00:02:07");
    let messages = vec![
        message(&payload, ts(2015, 7, 29, 2, 2, 0)),
        message(&payload, ts(2015, 7, 29, 2, 2, 0)),
    ];
    let mut heartbeats = messages.into_heartbeats();
    assert_eq!(2, heartbeats.len());
    assert_eq!(heartbeats.pop().unwrap().unwrap(), heartbeats.pop().unwrap().unwrap());
}

#[test]
fn three_messages_one_heartbeat() {
    let payload = full_record("10.210", "-0.340767", "06/13/16 18:00:00");
    let parts = split_record(&payload);
    let messages = vec![parts[1].clone(), parts[0].clone(), parts[1].clone()];
    let mut heartbeats = messages.into_heartbeats();
    assert_eq!(1, heartbeats.len());
    let heartbeat = heartbeats.pop().unwrap().unwrap();
    assert_eq!(Celsius(dec(false, 10210, 3)), heartbeat.temperature_external);
    assert_eq!(OrionPercentage(dec(true, 340767, 6)), heartbeat.dcl4);
}

#[test]
fn full_record_reads_every_field() {
    let payload = full_record("6.181", "-0.344048", "06/29/15 00:02:07");
    let h = HeartbeatV1::new(payload.as_bytes(), vec![]).unwrap();
    assert_eq!(MeasurementProgram::OneHundredKiloHertz, h.measurement_program);
    assert_eq!(atlas::units::Degrees(dec(false, 525, 2)), h.phi_start);
    assert_eq!(atlas::units::Hass50Amps(dec(false, 2725, 2)), h.solar1);
    assert_eq!(atlas::units::Hass100Amps(dec(false, 3625, 2)), h.b4);
    assert_eq!(OrionPercentage(dec(false, 468509, 5)), h.soc1);
}

#[test]
fn full_record_errors() {
    let short = "0,1,2";
    assert_eq!(Err(ParseHeartbeatError::FieldCount(3)), HeartbeatV1::new(short.as_bytes(), vec![]));
    let no_slash = full_record("6.181", "-0.344048", "0629 00:02:07");
    assert_eq!(
        Err(ParseHeartbeatError::DatetimeFormat(b"0629 00:02:07".to_vec())),
        HeartbeatV1::new(no_slash.as_bytes(), vec![])
    );
    let bad_month = full_record("6.181", "-0.344048", "x6/29/15 00:02:07");
    assert_eq!(
        Err(ParseHeartbeatError::ParseInt(b"x6".to_vec())),
        HeartbeatV1::new(bad_month.as_bytes(), vec![])
    );
    let late_month = full_record("6.181", "-0.344048", "12/29/15 00:02:07");
    assert_eq!(
        Err(ParseHeartbeatError::ChronoParse(b"13/29/15 00:02:07".to_vec())),
        HeartbeatV1::new(late_month.as_bytes(), vec![])
    );
    let bad_reading = full_record("6.181", "low", "06/29/15 00:02:07");
    assert_eq!(Err(ParseHeartbeatError::ParseFloat(48)), HeartbeatV1::new(bad_reading.as_bytes(), vec![]));
    let mut f = v1_fields("6.181", "06/29/15 00:02:07");
    f[4] = "9".to_string();
    assert_eq!(
        Err(ParseHeartbeatError::InvalidMeasurementProgram(b"9".to_vec())),
        HeartbeatV1::new(f.join(",").as_bytes(), vec![])
    );
}

fn log_lines() -> Vec<Vec<u8>> {
    let mut lines = vec![b"Station Name".to_vec(), b"HEL_ATLAS".to_vec()];
    for i in 0..49 {
        lines.push(format!("06/11/2015,11:{:02}:13,reading {}", i, i).into_bytes());
    }
    lines
}

#[test]
fn station_name() {
    let logfile = Log::from_lines(&log_lines()).unwrap();
    assert_eq!(b"HEL_ATLAS", logfile.station_name());
}

#[test]
fn records() {
    let logfile = Log::from_lines(&log_lines()).unwrap();
    assert_eq!(49, logfile.records().len());
}

#[test]
fn record_from_string() {
    let r = Record::from_str("06/11/2015,11:59:13,the data");
    assert!(r.is_ok());
    assert_eq!(ts(2015, 6, 11, 11, 59, 13), r.as_ref().unwrap().datetime);
    assert_eq!(b"the data".to_vec(), r.unwrap().data);
}

#[test]
fn record_too_short() {
    let r = Record::from_str("too short");
    assert!(r.is_err());
}

#[test]
fn not_a_comma() {
    let r = Record::from_str("06/11/2015,11:59:13~the data");
    assert!(r.is_err());
}

#[test]
fn empty_record() {
    let r = Record::from_str("06/11/2015,11:59:13,");
    assert!(r.is_ok());
    assert_eq!(Vec::<u8>::new(), r.unwrap().data);
}

#[test]
fn log_errors() {
    assert_eq!(SutronError::LogTooShort, Log::from_lines(&vec![]).unwrap_err());
    assert_eq!(
        SutronError::BadLogHeader(b"Station".to_vec()),
        Log::from_lines(&vec![b"Station".to_vec()]).unwrap_err()
    );
    assert_eq!(
        SutronError::LogTooShort,
        Log::from_lines(&vec![b"Station Name".to_vec()]).unwrap_err()
    );
    let mut lines = log_lines();
    lines.push(b"13/45/2015,11:59:13,x".to_vec());
    assert_eq!(
        SutronError::ChronoParse(b"13/45/2015,11:59:13".to_vec()),
        Log::from_lines(&lines).unwrap_err()
    );
    assert_eq!(SutronError::RecordTooShort(9), Record::parse(b"too short").unwrap_err());
    assert_eq!(
        SutronError::RecordMissingComma(b'~'),
        Record::parse(b"06/11/2015,11:59:13~the data").unwrap_err()
    );
}

#[test]
fn month_correction_text() {
    assert_eq!(Some(b"07/31/15 18:02:18".to_vec()), month_corrected_text(b"06/31/15 18:02:18"));
    assert_eq!(Some(b"10/01/16 00:00:00".to_vec()), month_corrected_text(b"09/01/16 00:00:00"));
    assert_eq!(Some(b"100".to_vec()), month_corrected_text(b"99"));
    assert_eq!(None, month_corrected_text(b"7"));
    assert_eq!(None, month_corrected_text(b"a7/01/16"));
}

#[test]
fn action_words() {
    assert_eq!(Ok(EfoyAction::Failure(7)), EfoyAction::from_word(7, b"fail"));
    assert_eq!(Ok(EfoyAction::Success(8)), EfoyAction::from_word(8, b"success"));
    assert_eq!(Err(Error::UnknownEfoyAction(b"Start".to_vec())), EfoyAction::from_word(9, b"Start"));
}
