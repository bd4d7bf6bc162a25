use caravan::settings::{
    layer_range_text, parse_layer_range, worker_settings, LayerRangeError, SettingsError,
    WorkerSettings,
};
use caravan::text::NumberError;

#[test]
fn layer_ranges_are_read() {
    assert_eq!(parse_layer_range("0-15"), Ok((0, 15)));
    assert_eq!(parse_layer_range("12-23"), Ok((12, 23)));
    assert_eq!(parse_layer_range("+7-07"), Ok((7, 7)));
    assert_eq!(parse_layer_range("9-3"), Ok((9, 3)));
    assert_eq!(
        parse_layer_range("0-18446744073709551615"),
        Ok((0, 18446744073709551615))
    );
}

#[test]
fn other_texts_are_not_layer_ranges() {
    assert_eq!(parse_layer_range(""), Err(LayerRangeError::Format));
    assert_eq!(parse_layer_range("15"), Err(LayerRangeError::Format));
    assert_eq!(parse_layer_range("0-1-2"), Err(LayerRangeError::Format));
    assert_eq!(parse_layer_range("0--2"), Err(LayerRangeError::Format));
    assert_eq!(
        parse_layer_range("-5"),
        Err(LayerRangeError::Number(NumberError::Empty))
    );
    assert_eq!(
        parse_layer_range("5-"),
        Err(LayerRangeError::Number(NumberError::Empty))
    );
    assert_eq!(
        parse_layer_range("a-5"),
        Err(LayerRangeError::Number(NumberError::InvalidDigit))
    );
    assert_eq!(
        parse_layer_range("0 -5"),
        Err(LayerRangeError::Number(NumberError::InvalidDigit))
    );
    assert_eq!(
        parse_layer_range("0-+"),
        Err(LayerRangeError::Number(NumberError::InvalidDigit))
    );
    assert_eq!(
        parse_layer_range("0-18446744073709551616"),
        Err(LayerRangeError::Number(NumberError::Overflow))
    );
}

#[test]
fn numbers_are_read_as_std_reads_them() {
    let texts = [
        "", "+", "-", "0", "00", "+0", "++1", "1+", "42", "4 2", "4_2", "x", "१",
        "18446744073709551615", "18446744073709551616", "99999999999999999999999",
        "18446744073709551616x", "000000000000000000000000000001",
    ];
    for text in texts {
        let got = parse_layer_range(&format!("{}-1", text));
        if text.contains('-') {
            assert_eq!(got, Err(LayerRangeError::Format));
            continue;
        }
        match text.parse::<usize>() {
            Ok(n) => assert_eq!(got, Ok((n, 1))),
            Err(e) => match got {
                Err(LayerRangeError::Number(n)) => {
                    assert_eq!(n.message(), e.to_string(), "{:?}", text)
                }
                other => panic!("{:?} for {:?}", other, text),
            },
        }
    }
}

#[test]
fn layer_ranges_are_written() {
    assert_eq!(layer_range_text(0, 15), "0-15");
    assert_eq!(layer_range_text(24, 31), "24-31");
    assert_eq!(
        layer_range_text(usize::MAX, 0),
        format!("{}-0", usize::MAX)
    );
}

#[test]
fn a_written_range_is_read_back() {
    for (a, b) in [(0, 0), (0, 9), (10, 10), (99, 100), (usize::MAX, usize::MAX - 1)] {
        assert_eq!(parse_layer_range(&layer_range_text(a, b)), Ok((a, b)));
    }
}

#[test]
fn worker_options_are_checked_in_order() {
    assert_eq!(
        worker_settings(Some(8000), Some("0-11"), true),
        Ok(WorkerSettings { port: 8000, start_layer: 0, end_layer: 11 })
    );
    assert_eq!(
        worker_settings(None, None, false),
        Err(SettingsError::MissingPort)
    );
    assert_eq!(
        worker_settings(Some(1), None, false),
        Err(SettingsError::MissingLayers)
    );
    assert_eq!(
        worker_settings(Some(1), Some("x"), false),
        Err(SettingsError::MissingModel)
    );
    assert_eq!(
        worker_settings(Some(1), Some("x"), true),
        Err(SettingsError::Layers(LayerRangeError::Format))
    );
}

#[test]
fn settings_errors_have_words() {
    assert_eq!(SettingsError::MissingPort.message(), "Missing --port for worker mode");
    assert_eq!(SettingsError::MissingLayers.message(), "Missing --layers for worker mode");
    assert_eq!(SettingsError::MissingModel.message(), "Missing --model for worker mode");
    assert_eq!(
        SettingsError::Layers(LayerRangeError::Format).message(),
        "Layers range must be in the format 'start-end' (e.g. 0-15)"
    );
    assert_eq!(
        SettingsError::Layers(LayerRangeError::Number(NumberError::Empty)).message(),
        "cannot parse integer from empty string"
    );
}
