//! Small state of the device around the storage: the shaping of touches,
//! and how the state of the wireless link is shown.

use vstd::prelude::*;

verus! {

/// Shapes the touches of an interactive menu: a touch counts only once
/// the sensor was seen released, so that the touch that opened the menu
/// does not count in it.
pub struct TouchInputShaper {
    released: bool,
    touched: bool,
}

impl TouchInputShaper {
    /// The sensor was seen released since the shaper was made.
    pub closed spec fn released(&self) -> bool {
        self.released
    }

    /// The sensor was touched when it was looked at last.
    pub closed spec fn touched(&self) -> bool {
        self.touched
    }

    /// A shaper that has seen nothing yet.
    pub fn new() -> (shaper: Self)
        ensures
            !shaper.released(),
            !shaper.touched(),
    {
        Self { released: false, touched: false }
    }

    /// Takes note of whether the sensor is touched now.
    pub fn update(&mut self, touched: bool)
        ensures
            final(self).touched() == touched,
            final(self).released() == (old(self).released() || !touched),
    {
        self.touched = touched;
        if !self.touched {
            self.released = true;
        }
    }

    /// Tells whether a touch counts: the sensor is touched, and was seen
    /// released before.
    pub fn is_touched(&mut self) -> (res: bool)
        ensures
            res == (old(self).released() && old(self).touched()),
            final(self).released() == old(self).released(),
            final(self).touched() == old(self).touched(),
    {
        self.released && self.touched
    }
}

/// A touch that lasts from before the shaper was made never counts, and
/// after a release every touch counts.
pub proof fn lemma_touch_counts(shaper: TouchInputShaper, next: TouchInputShaper, touched: bool)
    requires
        next.touched() == touched,
        next.released() == (shaper.released() || !touched),
    ensures
        !shaper.released() && touched ==> !(next.released() && next.touched()),
        shaper.released() ==> (next.released() && next.touched()) == touched,
{
}

/// Whether a known network is tried first or last.
#[derive(Clone, Copy, PartialEq, Eq, Debug)]
pub enum NetworkPreference {
    Preferred,
    Deprioritized,
}

/// The state of the link to an access point.
#[derive(Clone, Copy, PartialEq, Eq, Debug)]
pub enum ConnectionState {
    NotConnected,
    Connecting,
    Connected,
}

/// The state of the wireless link as it is shown.
#[derive(Clone, Copy, PartialEq, Eq, Debug)]
pub enum WifiState {
    NotConnected,
    Connecting,
    Connected,
}

/// How the state of the link to an access point is shown.
pub open spec fn spec_wifi_state(state: ConnectionState) -> WifiState {
    match state {
        ConnectionState::NotConnected => WifiState::NotConnected,
        ConnectionState::Connecting => WifiState::Connecting,
        ConnectionState::Connected => WifiState::Connected,
    }
}

/// Tells how the state of the link to an access point is shown.
pub fn wifi_state(state: ConnectionState) -> (shown: WifiState)
    ensures
        shown == spec_wifi_state(state),
{
    match state {
        ConnectionState::NotConnected => WifiState::NotConnected,
        ConnectionState::Connecting => WifiState::Connecting,
        ConnectionState::Connected => WifiState::Connected,
    }
}

/// The state of the access point of the device.
#[derive(Clone, Copy, PartialEq, Eq, Debug)]
pub enum ApConnectionState {
    NotConnected,
    Connected,
}

/// The state of the wireless link, whichever way it is used.
#[derive(Clone, Copy, PartialEq, Eq, Debug)]
pub enum GenericConnectionState {
    /// The device has joined, or is to join, a network.
    Sta(ConnectionState),
    /// The device is an access point.
    Ap(ApConnectionState),
    /// The link is switched off.
    Disabled,
}

/// How the state of the access point is shown.
pub open spec fn spec_ap_state(state: ApConnectionState) -> WifiState {
    match state {
        ApConnectionState::NotConnected => WifiState::NotConnected,
        ApConnectionState::Connected => WifiState::Connected,
    }
}

/// Tells how the state of the access point is shown.
pub fn ap_state(state: ApConnectionState) -> (shown: WifiState)
    ensures
        shown == spec_ap_state(state),
{
    match state {
        ApConnectionState::NotConnected => WifiState::NotConnected,
        ApConnectionState::Connected => WifiState::Connected,
    }
}

/// What the bar at the top of the screen shows of the wireless link:
/// nothing while the link is switched off.
#[derive(Clone, Copy, PartialEq, Eq, Debug)]
pub struct StatusBar {
    pub wifi: Option<WifiState>,
}

/// What the device knows of itself for the bar at the top of the screen.
pub struct Board {
    pub wifi: GenericConnectionState,
}

impl Board {
    /// What the bar shows for a state of the link.
    pub open spec fn spec_status_bar(wifi: GenericConnectionState) -> StatusBar {
        StatusBar {
            wifi: match wifi {
                GenericConnectionState::Sta(state) => Some(spec_wifi_state(state)),
                GenericConnectionState::Ap(state) => Some(spec_ap_state(state)),
                GenericConnectionState::Disabled => None,
            },
        }
    }

    /// Gives what the bar at the top of the screen shows.
    pub fn status_bar(&mut self) -> (bar: StatusBar)
        ensures
            bar == Self::spec_status_bar(old(self).wifi),
            final(self).wifi == old(self).wifi,
    {
        let connection_state = match self.wifi {
            GenericConnectionState::Sta(state) => Some(wifi_state(state)),
            GenericConnectionState::Ap(state) => Some(ap_state(state)),
            GenericConnectionState::Disabled => None,
        };
        StatusBar { wifi: connection_state }
    }
}

/// A stored setting that stands for no value.
#[derive(Clone, Copy, PartialEq, Eq, Debug)]
pub enum LoadError {
    InvalidValue,
}

/// What the menu of the display asks for.
#[derive(Clone, Copy, PartialEq, Eq, Debug)]
pub enum DisplayMenuEvents {
    Back,
}

/// How bright the display is.
#[derive(Clone, Copy, PartialEq, Eq, Debug)]
pub enum DisplayBrightness {
    Dimmest,
    Dim,
    Normal,
    Bright,
    Brightest,
}

impl DisplayBrightness {
    /// The byte that the setting is stored as.
    pub open spec fn spec_byte(self) -> u8 {
        match self {
            DisplayBrightness::Dimmest => 0,
            DisplayBrightness::Dim => 1,
            DisplayBrightness::Normal => 2,
            DisplayBrightness::Bright => 3,
            DisplayBrightness::Brightest => 4,
        }
    }

    /// The setting that a stored byte stands for.
    pub open spec fn spec_load(byte: u8) -> Result<DisplayBrightness, LoadError> {
        if byte == 0 {
            Ok(DisplayBrightness::Dimmest)
        } else if byte == 1 {
            Ok(DisplayBrightness::Dim)
        } else if byte == 2 {
            Ok(DisplayBrightness::Normal)
        } else if byte == 3 {
            Ok(DisplayBrightness::Bright)
        } else if byte == 4 {
            Ok(DisplayBrightness::Brightest)
        } else {
            Err(LoadError::InvalidValue)
        }
    }

    /// Gives the byte that the setting is stored as.
    pub fn store(self) -> (byte: u8)
        ensures
            byte == self.spec_byte(),
    {
        match self {
            DisplayBrightness::Dimmest => 0,
            DisplayBrightness::Dim => 1,
            DisplayBrightness::Normal => 2,
            DisplayBrightness::Bright => 3,
            DisplayBrightness::Brightest => 4,
        }
    }

    /// Reads the setting from the byte it was stored as.
    pub fn load(byte: u8) -> (res: Result<DisplayBrightness, LoadError>)
        ensures
            res == Self::spec_load(byte),
    {
        match byte {
            0 => Ok(DisplayBrightness::Dimmest),
            1 => Ok(DisplayBrightness::Dim),
            2 => Ok(DisplayBrightness::Normal),
            3 => Ok(DisplayBrightness::Bright),
            4 => Ok(DisplayBrightness::Brightest),
            _ => Err(LoadError::InvalidValue),
        }
    }

    /// A setting is read back from the byte it was stored as.
    pub proof fn lemma_load_store(self)
        ensures
            Self::spec_load(self.spec_byte()) == Ok::<DisplayBrightness, LoadError>(self),
    {
    }
}

/// How the charge of the battery is shown.
#[derive(Clone, Copy, PartialEq, Eq, Debug)]
pub enum BatteryStyle {
    MilliVolts,
    Percentage,
    Icon,
    LowIndicator,
}

impl BatteryStyle {
    /// The byte that the setting is stored as.
    pub open spec fn spec_byte(self) -> u8 {
        match self {
            BatteryStyle::MilliVolts => 0,
            BatteryStyle::Percentage => 1,
            BatteryStyle::Icon => 2,
            BatteryStyle::LowIndicator => 3,
        }
    }

    /// The setting that a stored byte stands for.
    pub open spec fn spec_load(byte: u8) -> Result<BatteryStyle, LoadError> {
        if byte == 0 {
            Ok(BatteryStyle::MilliVolts)
        } else if byte == 1 {
            Ok(BatteryStyle::Percentage)
        } else if byte == 2 {
            Ok(BatteryStyle::Icon)
        } else if byte == 3 {
            Ok(BatteryStyle::LowIndicator)
        } else {
            Err(LoadError::InvalidValue)
        }
    }

    /// The setting that follows in the menu; after the last comes the first.
    pub open spec fn spec_next(self) -> BatteryStyle {
        match self {
            BatteryStyle::MilliVolts => BatteryStyle::Percentage,
            BatteryStyle::Percentage => BatteryStyle::Icon,
            BatteryStyle::Icon => BatteryStyle::LowIndicator,
            BatteryStyle::LowIndicator => BatteryStyle::MilliVolts,
        }
    }

    /// Gives the setting that follows in the menu.
    pub fn next(&self) -> (following: BatteryStyle)
        ensures
            following == self.spec_next(),
    {
        match self {
            BatteryStyle::MilliVolts => BatteryStyle::Percentage,
            BatteryStyle::Percentage => BatteryStyle::Icon,
            BatteryStyle::Icon => BatteryStyle::LowIndicator,
            BatteryStyle::LowIndicator => BatteryStyle::MilliVolts,
        }
    }

    /// Gives the byte that the setting is stored as.
    pub fn store(self) -> (byte: u8)
        ensures
            byte == self.spec_byte(),
    {
        match self {
            BatteryStyle::MilliVolts => 0,
            BatteryStyle::Percentage => 1,
            BatteryStyle::Icon => 2,
            BatteryStyle::LowIndicator => 3,
        }
    }

    /// Reads the setting from the byte it was stored as.
    pub fn load(byte: u8) -> (res: Result<BatteryStyle, LoadError>)
        ensures
            res == Self::spec_load(byte),
    {
        match byte {
            0 => Ok(BatteryStyle::MilliVolts),
            1 => Ok(BatteryStyle::Percentage),
            2 => Ok(BatteryStyle::Icon),
            3 => Ok(BatteryStyle::LowIndicator),
            _ => Err(LoadError::InvalidValue),
        }
    }

    /// A setting is read back from the byte it was stored as, and going on
    /// four times in the menu leads back to it.
    pub proof fn lemma_load_store(self)
        ensures
            Self::spec_load(self.spec_byte()) == Ok::<BatteryStyle, LoadError>(self),
            self.spec_next().spec_next().spec_next().spec_next() == self,
    {
    }
}

/// The settings that the menu of the display shows.
#[derive(Clone, Copy, PartialEq, Eq, Debug)]
pub struct DisplayMenu {
    pub brightness: DisplayBrightness,
    pub battery_display: BatteryStyle,
}

/// What the menu of the access point asks for.
#[derive(Clone, Copy, PartialEq, Eq, Debug)]
pub enum ApMenuEvents {
    Exit,
}

/// The menu of the access point: it holds no setting.
#[derive(Clone, Copy, PartialEq, Eq, Debug)]
pub struct ApMenu {}

/// What the screen of the access point shows.
#[derive(Clone, Copy, PartialEq, Eq, Debug)]
pub enum WifiApScreenState {
    Idle,
    Connected,
}

/// What the menu of the known networks asks for.
#[derive(Clone, Copy, PartialEq, Eq, Debug)]
pub enum WifiStaMenuEvents {
    NoEvent,
    Back,
}

/// What the menu about the device asks for.
#[derive(Clone, Copy, PartialEq, Eq, Debug)]
pub enum AboutMenuEvents {
    NoEvent,
    ToBatteryInfo,
    ToSerial,
    Back,
}

} // verus!
