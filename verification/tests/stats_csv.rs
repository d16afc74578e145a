use speedy_http::stat::ConnectionStatistics;
use speedy_http::stat::ConnectionStatisticsEntry;

#[test]
fn csv_header_names_every_column() {
    assert_eq!(
        ConnectionStatisticsEntry::write_csv_headers(),
        "time, connection_new_count, connection_living_count, connection_connecting_count, request_initiated_count, request_pending_count, request_sent_count, response_ok_count, response_bad_count\n"
    );
}

#[test]
fn csv_line_renders_counters_in_header_order() {
    let entry = ConnectionStatisticsEntry {
        time: 1234567,
        stat: ConnectionStatistics {
            connection_new_count: 1,
            connection_living_count: 2,
            connection_connecting_count: 3,
            request_initiated_count: 0,
            request_pending_count: 40,
            request_sent_count: 500,
            response_ok_count: 499,
            response_bad_count: 1,
        },
    };
    assert_eq!(entry.write_csv_line(), "1234567, 1, 2, 3, 0, 40, 500, 499, 1\n");
}

#[test]
fn csv_line_renders_zero_and_negative_values() {
    let entry = ConnectionStatisticsEntry {
        time: 0,
        stat: ConnectionStatistics {
            connection_new_count: -7,
            connection_living_count: 0,
            connection_connecting_count: i64::MIN,
            request_initiated_count: i64::MAX,
            request_pending_count: 10,
            request_sent_count: 0,
            response_ok_count: 0,
            response_bad_count: 0,
        },
    };
    assert_eq!(
        entry.write_csv_line(),
        "0, -7, 0, -9223372036854775808, 9223372036854775807, 10, 0, 0, 0\n"
    );
}

#[test]
fn default_statistics_are_zero() {
    let zero = ConnectionStatistics::default();
    assert_eq!(zero.connection_new_count, 0);
    assert_eq!(zero.connection_living_count, 0);
    assert_eq!(zero.connection_connecting_count, 0);
    assert_eq!(zero.request_initiated_count, 0);
    assert_eq!(zero.request_pending_count, 0);
    assert_eq!(zero.request_sent_count, 0);
    assert_eq!(zero.response_ok_count, 0);
    assert_eq!(zero.response_bad_count, 0);
}
