use chrono::{DateTime, Utc};
use feedview::time::{civil_of_day, parse_date};

#[test]
fn test_parse_date() {
    let cases = [
        // RFC3339
        ("2023-01-07T17:12:42+00:00", "2023-01-07T17:12:42Z"),
        ("2025-05-01T10:17:04.634+03:00", "2025-05-01T07:17:04.634Z"),
        ("2025-08-24T12:33:09.842034+00:00", "2025-08-24T12:33:09.842034Z"),
        ("2024-11-19T08:58:00Z", "2024-11-19T08:58:00Z"),
        ("2025-07-30T13:00:00.000Z", "2025-07-30T13:00:00Z"),
        // RFC2822
        ("Wed, 02 May 2025 07:00:00 GMT", "2025-05-02T07:00:00Z"),
        ("Thu, 07 Dec 2023 00:00:00 +0000", "2023-12-07T00:00:00Z"),
        ("Tue, 08 Apr 2025 11:03:32 +0200", "2025-04-08T09:03:32Z"),
        // day and full month name
        ("Fri, 01 August 2025 07:00:00 GMT", "2025-08-01T07:00:00Z"),
        // space-delimited
        ("2025-08-26 21:29:20 UTC", "2025-08-26T21:29:20Z"),
        ("2025-08-26 05:37:56 -0700", "2025-08-26T12:37:56Z"),
    ];

    for (input, expected) in cases {
        let parsed = parse_date(input);
        let expected: DateTime<Utc> = expected.parse().unwrap();
        assert_eq!(parsed, Some(expected.timestamp_micros()), "input: '{input}'");
    }
}

#[test]
fn parse_date_rejects_unparseable_input() {
    assert_eq!(parse_date("not a date"), None);
    assert_eq!(parse_date(""), None);
    assert_eq!(parse_date("2025-13-45T99:99:99Z"), None);
}

#[test]
fn civil_of_day_epoch_and_around() {
    assert_eq!(civil_of_day(0), (1970, 1, 1));
    assert_eq!(civil_of_day(-1), (1969, 12, 31));
    assert_eq!(civil_of_day(11016), (2000, 2, 29));
    assert_eq!(civil_of_day(20301), (2025, 8, 1));
}
