pub mod commands;
pub mod device_enumerator;
pub mod flasher;
pub mod image_patcher;
pub mod json;
pub mod manifest;
pub mod os_error;
pub mod plist_value;
pub mod text;
pub mod wifi_scanner;
