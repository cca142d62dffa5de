use track_mapper::bot::{
    list_html_files, try_list_html_files, AddCommandStep, AddMapAction, AddMapCommand, Bot,
    BotAction, CommandKind, FileEntry, Incoming, ListCommand, Reply, Settings,
};
use track_mapper::geo_coder::GeoCoordsError;
use track_mapper::text::{escape_markdown, file_extension, str_eq};

fn settings(server_url: &str) -> Settings {
    Settings {
        bot_token: "SECRET-REDACTED".to_string(),
        map_storage_path: "/tmp/track_mapper".to_string(),
        server_url: server_url.to_string(),
    }
}

fn text(data: &str, coords: Result<(i32, i32), GeoCoordsError>) -> Incoming<(i32, i32)> {
    Incoming::Text { data: data.to_string(), coords }
}

fn entry(name: &str, is_file: bool) -> FileEntry {
    FileEntry { file_name: name.to_string(), is_file }
}

#[test]
fn dialogue_asks_for_corners_then_picture() {
    let mut cmd: AddMapCommand<(i32, i32)> = AddMapCommand::new("t".to_string());
    assert_eq!(cmd.step, AddCommandStep::Initial);
    assert_eq!(cmd.handle_command(Incoming::Other), AddMapAction::Send(Reply::AskTopLeft));
    assert_eq!(cmd.step, AddCommandStep::TopLeft);

    assert_eq!(cmd.handle_command(Incoming::Photo), AddMapAction::Send(Reply::AskTopLeft));
    assert_eq!(cmd.handle_command(text("x", Err(GeoCoordsError))), AddMapAction::Send(Reply::TopLeftError));
    assert_eq!(cmd.step, AddCommandStep::TopLeft);
    assert_eq!(cmd.handle_command(text("1,2", Ok((1, 2)))), AddMapAction::Send(Reply::AskBottomRight));
    assert_eq!(cmd.top_left, Some((1, 2)));
    assert!(cmd.corners().is_none());

    assert_eq!(cmd.handle_command(Incoming::Document), AddMapAction::Nothing);
    assert_eq!(cmd.handle_command(text("y", Err(GeoCoordsError))), AddMapAction::Send(Reply::BottomRightError));
    assert_eq!(cmd.handle_command(text("3,4", Ok((3, 4)))), AddMapAction::Send(Reply::AskImage));
    assert_eq!(cmd.step, AddCommandStep::Image);
    assert_eq!(cmd.corners(), Some((&(1, 2), &(3, 4))));

    assert_eq!(cmd.handle_command(Incoming::Photo), AddMapAction::FetchPhoto);
    assert_eq!(cmd.handle_command(Incoming::Document), AddMapAction::FetchDocument);
    assert_eq!(cmd.handle_command(text("5,6", Ok((5, 6)))), AddMapAction::Send(Reply::ImageNotRecognized));
    assert_eq!(cmd.step, AddCommandStep::Image);
    assert_eq!(cmd.corners(), Some((&(1, 2), &(3, 4))));
}

#[test]
fn replies_have_their_words_and_modes() {
    assert_eq!(Reply::AskImage.text(), "#3. Прикрепите изображение карты");
    assert_eq!(Reply::ImageNotRecognized.text(), "#3. Не могу распознать изображение");
    assert!(Reply::AskTopLeft.markdown());
    assert!(!Reply::ImageNotRecognized.markdown());
    assert_eq!(AddCommandStep::default(), AddCommandStep::Initial);
}

#[test]
fn bot_routes_slash_commands() {
    let mut bot: Bot<(i32, i32)> = Bot::new(settings("http://localhost:8000"));
    assert_eq!(bot.handle_message(text("hello", Ok((0, 0)))), BotAction::Nothing);
    assert_eq!(bot.handle_message(text("/add_map", Err(GeoCoordsError))), BotAction::AddMap(AddMapAction::Send(Reply::AskTopLeft)));
    match &bot.current_command {
        Some(CommandKind::AddMap(cmd)) => {
            assert_eq!(cmd.step, AddCommandStep::TopLeft);
            assert_eq!(cmd.token, "SECRET-REDACTED");
        }
        _ => panic!("expected the map dialogue"),
    }
    // Plain messages go to the dialogue.
    assert_eq!(bot.handle_message(text("1,2", Ok((1, 2)))), BotAction::AddMap(AddMapAction::Send(Reply::AskBottomRight)));
    // An unknown slash command is ignored and the dialogue goes on.
    assert_eq!(bot.handle_message(text("/unknown", Ok((9, 9)))), BotAction::Nothing);
    assert_eq!(bot.handle_message(text("3,4", Ok((3, 4)))), BotAction::AddMap(AddMapAction::Send(Reply::AskImage)));
    // `/list` only asks for the listing until it has been sent.
    assert_eq!(bot.handle_message(text("/list", Err(GeoCoordsError))), BotAction::List);
    assert_eq!(bot.handle_message(Incoming::Photo), BotAction::AddMap(AddMapAction::FetchPhoto));
    bot.list_sent();
    assert!(matches!(bot.current_command, Some(CommandKind::List(_))));
    assert_eq!(bot.handle_message(Incoming::Photo), BotAction::Nothing);
    // A new `/add_map` starts the dialogue afresh.
    assert_eq!(bot.handle_message(text("/add_map", Ok((1, 1)))), BotAction::AddMap(AddMapAction::Send(Reply::AskTopLeft)));
    assert_eq!(bot.handle_message(text("/add_map ", Ok((1, 1)))), BotAction::Nothing);
}

#[test]
fn listing_links_the_html_files() {
    let entries = vec![
        entry("a.html", true),
        entry("notes.txt", true),
        entry("folder.html", false),
        entry("x).html", true),
        entry("b`c.HTML", true),
        entry("final.map.html", true),
    ];
    assert_eq!(
        list_html_files(&entries, "http://localhost:8000"),
        "http://localhost:8000/a.html\nhttp://localhost:8000/x\\).html\nhttp://localhost:8000/final.map.html"
    );
    assert_eq!(
        try_list_html_files(&entries, "http://localhost:8000/maps/"),
        Some("http://localhost:8000/maps/a.html\nhttp://localhost:8000/maps/x\\).html\nhttp://localhost:8000/maps/final.map.html".to_string())
    );
}

#[test]
fn listing_fails_where_a_link_cannot_be_made() {
    assert_eq!(try_list_html_files(&vec![entry("a.html", true)], "not a url"), None);
    assert_eq!(try_list_html_files(&vec![], "not a url"), None);
    // A file without an extension.
    assert_eq!(try_list_html_files(&vec![entry("README", true)], "http://localhost:8000"), None);
    assert_eq!(try_list_html_files(&vec![entry(".html", true)], "http://localhost:8000"), None);
    // Directories need no extension.
    assert_eq!(try_list_html_files(&vec![entry("README", false)], "http://localhost:8000"), Some(String::new()));
}

#[test]
fn list_command_reports_no_maps() {
    let list = ListCommand::new(settings("http://localhost:8000"));
    assert_eq!(list.handle_command(&vec![]), Some("Нет карт".to_string()));
    assert_eq!(list.handle_command(&vec![entry("a.txt", true)]), Some("Нет карт".to_string()));
    assert_eq!(
        list.handle_command(&vec![entry("m.html", true)]),
        Some("http://localhost:8000/m.html".to_string())
    );
}

#[test]
fn text_helpers() {
    assert_eq!(escape_markdown("a`b)c"), "a\\`b\\)c");
    assert_eq!(escape_markdown("plain"), "plain");
    assert_eq!(file_extension("a.html"), Some("html".to_string()));
    assert_eq!(file_extension("a.b.c"), Some("c".to_string()));
    assert_eq!(file_extension("a."), Some(String::new()));
    assert_eq!(file_extension(".hidden"), None);
    assert_eq!(file_extension(".a.b"), Some("b".to_string()));
    assert_eq!(file_extension("noext"), None);
    assert_eq!(file_extension(".."), None);
    assert!(str_eq("Нет", "Нет"));
    assert!(!str_eq("ab", "abc"));
}

#[test]
fn picture_url_puts_token_and_path_after_the_api_address() {
    let command: AddMapCommand<(i32, i32)> = AddMapCommand::new("123:abc".to_string());
    let url = command.picture_url(Some("photos/file_7.jpg".to_string())).unwrap();
    assert!(url.ends_with("file/bot123:abc/photos/file_7.jpg"));
    assert!(url.len() > "file/bot123:abc/photos/file_7.jpg".len());
    assert_eq!(command.picture_url(None), None);
}

#[test]
fn listing_is_empty_exactly_without_map_pages() {
    let none = vec![entry("notes.txt", true), entry("maps.html", false)];
    assert_eq!(list_html_files(&none, "https://maps.example.org/"), "");
    let one = vec![entry("notes.txt", true), entry("a.html", true)];
    assert!(!list_html_files(&one, "https://maps.example.org/").is_empty());
}
