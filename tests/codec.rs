use aura::property::decode_id_list;
use aura::property::decode_text_property;
use aura::property::extract_embedded_icon;
use aura::property::PropertyError;

#[test]
fn embedded_icon_picks_largest_block() {
    let data: Vec<u32> = vec![1, 1, 0xFF112233, 2, 1, 0xFF000000, 0xFF000000];
    let icon = extract_embedded_icon(32, data.len() as u32, &data).expect("an icon");
    assert_eq!(icon.width, 2);
    assert_eq!(icon.height, 1);
    assert_eq!(icon.data, vec![0, 0, 0, 0xFF, 0, 0, 0, 0xFF]);
}

#[test]
fn embedded_icon_single_block_rgba_order() {
    let data: Vec<u32> = vec![1, 1, 0x80112233];
    let icon = extract_embedded_icon(32, 3, &data).expect("an icon");
    assert_eq!(icon.data, vec![0x11, 0x22, 0x33, 0x80]);
}

#[test]
fn embedded_icon_truncated_gives_none() {
    let data: Vec<u32> = vec![4, 4, 0x1, 0x2];
    assert!(extract_embedded_icon(32, 4, &data).is_none());
}

#[test]
fn embedded_icon_keeps_best_before_truncation() {
    let data: Vec<u32> = vec![1, 1, 0xFF010203, 8, 8, 0x1];
    let icon = extract_embedded_icon(32, 6, &data).expect("an icon");
    assert_eq!((icon.width, icon.height), (1, 1));
    assert_eq!(icon.data, vec![0x01, 0x02, 0x03, 0xFF]);
}

#[test]
fn embedded_icon_ties_keep_earliest() {
    let data: Vec<u32> = vec![2, 1, 0xFF0000FF, 0xFF0000FF, 1, 2, 0xFFFF0000, 0xFFFF0000];
    let icon = extract_embedded_icon(32, 8, &data).expect("an icon");
    assert_eq!((icon.width, icon.height), (2, 1));
    assert_eq!(icon.data, vec![0, 0, 0xFF, 0xFF, 0, 0, 0xFF, 0xFF]);
}

#[test]
fn embedded_icon_wrong_format_or_empty() {
    let data: Vec<u32> = vec![1, 1, 0xFF112233];
    assert!(extract_embedded_icon(8, 3, &data).is_none());
    assert!(extract_embedded_icon(32, 0, &Vec::new()).is_none());
    let zero: Vec<u32> = vec![0, 5];
    assert!(extract_embedded_icon(32, 2, &zero).is_none());
}

#[test]
fn id_list_empty_reply_with_wrong_format_is_empty() {
    let r = decode_id_list(8, 0, Vec::new());
    assert_eq!(r.expect("empty list"), Vec::<u32>::new());
}

#[test]
fn id_list_nonempty_reply_with_wrong_format_fails() {
    let r = decode_id_list(8, 3, Vec::new());
    assert_eq!(r, Err(PropertyError::Format(8)));
}

#[test]
fn id_list_passes_values_through() {
    let r = decode_id_list(32, 2, vec![7, 9]);
    assert_eq!(r, Ok(vec![7, 9]));
}

#[test]
fn text_property_decodes_lossily() {
    let r = decode_text_property(8, &[b'a', 0xFF, b'b']).expect("text");
    assert_eq!(r, "a\u{FFFD}b");
    assert_eq!(decode_text_property(32, b"abc"), Err(PropertyError::Format(32)));
}
