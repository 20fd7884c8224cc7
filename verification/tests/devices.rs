use rtc_trial::devices::{pick_device, DeviceChoice, DeviceError};

fn names(list: &[Option<&str>]) -> Vec<Option<String>> {
    list.iter().map(|n| n.map(|s| s.to_string())).collect()
}

#[test]
fn the_first_match_wins() {
    let list = names(&[Some("HDA Intel"), None, Some("USB Audio"), Some("USB Mic")]);
    assert_eq!(pick_device(&list, true, Some("USB")), Ok(DeviceChoice::Listed(2)));
    assert_eq!(pick_device(&list, false, Some("Mic")), Ok(DeviceChoice::Listed(3)));
    assert_eq!(pick_device(&list, true, Some("HDA Intel")), Ok(DeviceChoice::Listed(0)));
    assert_eq!(pick_device(&list, true, Some("")), Ok(DeviceChoice::Listed(0)));
}

#[test]
fn no_match_does_not_fall_back_to_the_default() {
    let list = names(&[Some("HDA Intel"), None]);
    assert_eq!(pick_device(&list, true, Some("usb")), Err(DeviceError::NoMatch));
    assert_eq!(pick_device(&list, true, Some("HDA Intel PCH")), Err(DeviceError::NoMatch));
    assert_eq!(pick_device(&names(&[None]), true, Some("")), Err(DeviceError::NoMatch));
    assert_eq!(pick_device(&names(&[]), true, Some("")), Err(DeviceError::NoMatch));
}

#[test]
fn the_default_is_used_if_nothing_is_wanted() {
    let list = names(&[Some("HDA Intel")]);
    assert_eq!(pick_device(&list, true, None), Ok(DeviceChoice::Default));
    assert_eq!(pick_device(&list, false, None), Err(DeviceError::NoDefault));
}

#[test]
fn text_is_compared_by_characters() {
    let list = names(&[Some("M\u{e9}lange"), Some("Gr\u{fc}n")]);
    assert_eq!(pick_device(&list, true, Some("\u{fc}n")), Ok(DeviceChoice::Listed(1)));
    assert_eq!(pick_device(&list, true, Some("\u{e9}l")), Ok(DeviceChoice::Listed(0)));
}
