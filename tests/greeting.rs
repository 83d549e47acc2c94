use window_match::greeting::{hello_world, present};

#[test]
fn present_names_the_speaker() {
    assert_eq!(present("Ferris"), "I am Ferris");
    assert_eq!(present(""), "I am ");
}

#[test]
fn hello_world_joins_message_and_presentation() {
    assert_eq!(hello_world("Oh yeah!", "Ferris"), "Hello world! Oh yeah! I am Ferris");
}
