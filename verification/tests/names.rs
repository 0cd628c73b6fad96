use magic_mount::name::{join, name_eq, name_order, path_join, Order};
use magic_mount::words::bytes;

#[test]
fn order_is_bytewise() {
    assert_eq!(name_order(&bytes("abc"), &bytes("abd")), Order::Less);
    assert_eq!(name_order(&bytes("abc"), &bytes("abc")), Order::Equal);
    assert_eq!(name_order(&bytes("b"), &bytes("abc")), Order::Greater);
    assert_eq!(name_order(&bytes("ab"), &bytes("abc")), Order::Less);
    assert_eq!(name_order(&bytes(""), &bytes("")), Order::Equal);
}

#[test]
fn equality_compares_all_bytes() {
    assert!(name_eq(&bytes("system"), &bytes("system")));
    assert!(!name_eq(&bytes("system"), &bytes("systen")));
    assert!(!name_eq(&bytes("system"), &bytes("system_ext")));
}

#[test]
fn join_puts_one_slash_between() {
    assert_eq!(join(&bytes("/system"), &bytes("bin")), bytes("/system/bin"));
    assert_eq!(join(&bytes(""), &bytes("bin")), bytes("/bin"));
}

#[test]
fn path_join_lets_an_absolute_path_stand() {
    assert_eq!(path_join(&bytes("/system/lib"), &bytes("libz.so")), bytes("/system/lib/libz.so"));
    assert_eq!(path_join(&bytes("/system/lib"), &bytes("/data/libz.so")), bytes("/data/libz.so"));
    assert_eq!(path_join(&bytes(""), &bytes("/sbin")), bytes("/sbin"));
}
