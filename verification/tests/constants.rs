use icontool::constant::{
    icontool_keys, DMI_METADATA_KEY, DMI_PATH_KEY, IMAGE_HEIGHT_KEY, IMAGE_WIDTH_KEY,
    MAX_IMAGE_HEIGHT, MAX_IMAGE_WIDTH, ZTXT_KEYWORD,
};

#[test]
fn test_dmi_metadata_key() {
    assert_eq!("__dmi_metadata", DMI_METADATA_KEY);
}

#[test]
fn test_dmi_path_key() {
    assert_eq!("__dmi_path", DMI_PATH_KEY);
}

#[test]
fn test_image_height_key() {
    assert_eq!("__image_height", IMAGE_HEIGHT_KEY);
}

#[test]
fn test_image_width_key() {
    assert_eq!("__image_width", IMAGE_WIDTH_KEY);
}

#[test]
fn test_max_image_height() {
    assert_eq!(6144, MAX_IMAGE_HEIGHT);
}

#[test]
fn test_max_image_width() {
    assert_eq!(6144, MAX_IMAGE_WIDTH);
}

#[test]
fn test_ztxt_keyword() {
    assert_eq!("Description", ZTXT_KEYWORD);
}

#[test]
fn test_icontool_keys() {
    let keys = icontool_keys();
    assert_eq!(
        ["__dmi_metadata", "__dmi_path", "__image_height", "__image_width"],
        keys
    );
}
