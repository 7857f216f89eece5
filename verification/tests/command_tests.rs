use bitchat_rust::command::{process_command, Command};

fn nick(s: &str) -> String {
    s.to_string()
}

#[test]
fn msg_with_nickname_and_text() {
    assert_eq!(
        process_command("/msg @bob hello there"),
        Ok(Command::Msg { nickname: nick("bob"), message: Some("hello there".to_string()) })
    );
    assert_eq!(
        process_command("/m alice"),
        Ok(Command::Msg { nickname: nick("alice"), message: None })
    );
}

#[test]
fn msg_without_arguments_gives_empty_nickname() {
    assert_eq!(process_command("/msg"), Ok(Command::Msg { nickname: String::new(), message: None }));
}

#[test]
fn simple_commands() {
    assert_eq!(process_command("/who"), Ok(Command::Who));
    assert_eq!(process_command("/w"), Ok(Command::Who));
    assert_eq!(process_command("/clear"), Ok(Command::Clear));
    assert_eq!(process_command("/help"), Ok(Command::Help));
    assert_eq!(process_command("/h"), Ok(Command::Help));
}

#[test]
fn command_word_is_case_insensitive_and_slashes_optional() {
    assert_eq!(process_command("/WHO"), Ok(Command::Who));
    assert_eq!(process_command("who"), Ok(Command::Who));
    assert_eq!(process_command("///Clear"), Ok(Command::Clear));
}

#[test]
fn nickname_commands() {
    assert_eq!(process_command("/hug @carol"), Ok(Command::Hug { nickname: nick("carol") }));
    assert_eq!(process_command("/slap dave  "), Ok(Command::Slap { nickname: nick("dave") }));
    assert_eq!(process_command("/block @@eve"), Ok(Command::Block { nickname: nick("eve") }));
    assert_eq!(process_command("/unblock eve"), Ok(Command::Unblock { nickname: nick("eve") }));
    assert_eq!(process_command("/fav \t frank"), Ok(Command::Fav { nickname: nick("frank") }));
    assert_eq!(process_command("/unfav frank"), Ok(Command::Unfav { nickname: nick("frank") }));
}

#[test]
fn nickname_commands_need_an_argument() {
    assert_eq!(process_command("/hug").unwrap_err().message(), "usage: /hug <nickname>");
    assert_eq!(process_command("/slap   ").unwrap_err().message(), "usage: /slap <nickname>");
    assert_eq!(process_command("/block").unwrap_err().message(), "usage: /block <nickname>");
    assert_eq!(process_command("/unblock").unwrap_err().message(), "usage: /unblock <nickname>");
    assert_eq!(process_command("/fav").unwrap_err().message(), "usage: /fav <nickname>");
    assert_eq!(process_command("/unfav").unwrap_err().message(), "usage: /unfav <nickname>");
}

#[test]
fn unknown_command_is_reported_in_lower_case() {
    assert_eq!(process_command("/Dance now").unwrap_err().message(), "unknown command: /dance");
}

#[test]
fn command_word_case_does_not_matter_but_argument_case_does() {
    assert_eq!(process_command("/HuG Bob"), process_command("/hug Bob"));
    assert_eq!(process_command("/HuG Bob"), Ok(Command::Hug { nickname: nick("Bob") }));
    assert_eq!(process_command("/MSG @Ann Hi"), process_command("/msg @Ann Hi"));
}
