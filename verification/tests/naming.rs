use clap_trie::naming::{command_names, struct_name};

#[test]
fn names_of_a_command_of_several_words() {
    assert_eq!(
        command_names("get thingy attributes"),
        (String::from("GetThingyAttributes"), String::from("GetThingyAttributesCmd"))
    );
    assert_eq!(
        command_names("list thingy"),
        (String::from("ListThingy"), String::from("ListThingyCmd"))
    );
}

#[test]
fn names_of_a_command_of_one_word() {
    assert_eq!(command_names("auth"), (String::from("Auth"), String::from("AuthCmd")));
}

#[test]
fn words_end_at_every_boundary() {
    assert_eq!(command_names("get-device_bundles").0, "GetDeviceBundles");
    assert_eq!(command_names("list2fa").0, "List2Fa");
    assert_eq!(command_names("getDevice").0, "GetDEvice");
}

#[test]
fn struct_name_ends_in_cmd() {
    assert_eq!(struct_name("GetThingy"), "GetThingyCmd");
    assert_eq!(struct_name(""), "Cmd");
}
