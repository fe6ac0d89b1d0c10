use storage::device::{
    wifi_state, ApConnectionState, BatteryStyle, Board, ConnectionState, DisplayBrightness,
    GenericConnectionState, LoadError, StatusBar, TouchInputShaper, WifiState,
};

#[test]
fn touch_counts_only_after_a_release() {
    let mut shaper = TouchInputShaper::new();
    assert!(!shaper.is_touched());
    shaper.update(true);
    assert!(!shaper.is_touched());
    shaper.update(true);
    assert!(!shaper.is_touched());
    shaper.update(false);
    assert!(!shaper.is_touched());
    shaper.update(true);
    assert!(shaper.is_touched());
    shaper.update(false);
    assert!(!shaper.is_touched());
    shaper.update(true);
    assert!(shaper.is_touched());
}

#[test]
fn link_state_is_shown_as_it_is() {
    assert_eq!(wifi_state(ConnectionState::NotConnected), WifiState::NotConnected);
    assert_eq!(wifi_state(ConnectionState::Connecting), WifiState::Connecting);
    assert_eq!(wifi_state(ConnectionState::Connected), WifiState::Connected);
}

#[test]
fn status_bar_shows_no_link_while_it_is_off() {
    let mut board = Board { wifi: GenericConnectionState::Disabled };
    assert_eq!(board.status_bar(), StatusBar { wifi: None });
    board.wifi = GenericConnectionState::Sta(ConnectionState::Connecting);
    assert_eq!(board.status_bar(), StatusBar { wifi: Some(WifiState::Connecting) });
    board.wifi = GenericConnectionState::Ap(ApConnectionState::Connected);
    assert_eq!(board.status_bar(), StatusBar { wifi: Some(WifiState::Connected) });
    board.wifi = GenericConnectionState::Ap(ApConnectionState::NotConnected);
    assert_eq!(board.status_bar(), StatusBar { wifi: Some(WifiState::NotConnected) });
}

#[test]
fn brightness_is_stored_as_a_byte() {
    let all = [
        DisplayBrightness::Dimmest,
        DisplayBrightness::Dim,
        DisplayBrightness::Normal,
        DisplayBrightness::Bright,
        DisplayBrightness::Brightest,
    ];
    for (byte, brightness) in all.into_iter().enumerate() {
        assert_eq!(brightness.store(), byte as u8);
        assert_eq!(DisplayBrightness::load(byte as u8), Ok(brightness));
    }
    assert_eq!(DisplayBrightness::load(5), Err(LoadError::InvalidValue));
    assert_eq!(DisplayBrightness::load(255), Err(LoadError::InvalidValue));
}

#[test]
fn battery_style_is_stored_as_a_byte_and_goes_round() {
    let all = [
        BatteryStyle::MilliVolts,
        BatteryStyle::Percentage,
        BatteryStyle::Icon,
        BatteryStyle::LowIndicator,
    ];
    for (byte, style) in all.into_iter().enumerate() {
        assert_eq!(style.store(), byte as u8);
        assert_eq!(BatteryStyle::load(byte as u8), Ok(style));
        assert_eq!(style.next(), all[(byte + 1) % 4]);
    }
    assert_eq!(BatteryStyle::load(4), Err(LoadError::InvalidValue));
}
