//! The conversation: routing messages to commands, the three-question dialogue
//! that adds a map, and the listing of published maps.
//!
//! Sending, downloading and reading the map directory are left to the
//! caller: each step here takes what came in and says what to do next.

use vstd::prelude::*;
use crate::geo_coder::GeoCoordsError;
use crate::text::{
    escape_markdown, escape_markdown_spec, extension_spec, file_extension, join_lines, str_eq,
};
use crate::urls::{join_url, parse_url, url_joined, url_parses};

verus! {

/// The values the bot reads from its configuration.
pub struct Settings {
    pub bot_token: String,
    pub map_storage_path: String,
    pub server_url: String,
}

impl Clone for Settings {
    fn clone(&self) -> (r: Self)
        ensures
            r == *self,
    {
        Settings {
            bot_token: self.bot_token.clone(),
            map_storage_path: self.map_storage_path.clone(),
            server_url: self.server_url.clone(),
        }
    }
}

/// One entry of the map directory: its file name and whether it is a file.
pub struct FileEntry {
    pub file_name: String,
    pub is_file: bool,
}

/// Whether the entry is a file whose extension is `html`.
pub open spec fn is_html(e: FileEntry) -> bool {
    e.is_file && extension_spec(e.file_name@) == Some("html"@)
}

/// The escaped links of the map pages among `entries`, in directory order.
pub open spec fn html_links(entries: Seq<FileEntry>, server_url: Seq<char>) -> Seq<Seq<char>>
    decreases entries.len(),
{
    if entries.len() == 0 {
        Seq::empty()
    } else {
        let rest = html_links(entries.drop_last(), server_url);
        let e = entries.last();
        if is_html(e) {
            match url_joined(server_url, e.file_name@) {
                Some(link) => rest.push(escape_markdown_spec(link)),
                None => rest,
            }
        } else {
            rest
        }
    }
}

/// Whether some entry is a map page (a file with the extension `html`).
pub open spec fn has_map_page(entries: Seq<FileEntry>) -> bool {
    exists|i: int| 0 <= i < entries.len() && is_html(#[trigger] entries[i])
}

/// The listing text: one escaped link per map page, a newline between two.
pub open spec fn list_text(entries: Seq<FileEntry>, server_url: Seq<char>) -> Seq<char> {
    join_lines(html_links(entries, server_url))
}

/// Whether listing `entries` against `server_url` succeeds: the server URL
/// parses, every file has an extension, and every map page's name joins
/// onto the server URL.
pub open spec fn listable(entries: Seq<FileEntry>, server_url: Seq<char>) -> bool {
    &&& url_parses(server_url)
    &&& forall|i: int|
        0 <= i < entries.len() && #[trigger] entries[i].is_file ==> extension_spec(
            entries[i].file_name@,
        ) is Some
    &&& forall|i: int|
        0 <= i < entries.len() && is_html(#[trigger] entries[i]) ==> url_joined(
            server_url,
            entries[i].file_name@,
        ) is Some
}

/// The map pages among `entries`, in directory order.
pub open spec fn map_pages(entries: Seq<FileEntry>) -> Seq<FileEntry> {
    entries.filter(|e: FileEntry| is_html(e))
}

/// The escaped link of every map page among `entries`, in directory order.
pub open spec fn page_links(entries: Seq<FileEntry>, server_url: Seq<char>) -> Seq<Seq<char>> {
    map_pages(entries).map_values(
        |e: FileEntry| escape_markdown_spec(url_joined(server_url, e.file_name@)->0),
    )
}

/// The listing has one link per map page and nothing else: link `k` is the
/// server URL joined with the name of the `k`-th map page, escaped.
pub proof fn lemma_one_link_per_map_page(entries: Seq<FileEntry>, server_url: Seq<char>)
    requires
        listable(entries, server_url),
    ensures
        html_links(entries, server_url).len() == map_pages(entries).len(),
        forall|k: int|
            0 <= k < map_pages(entries).len() ==> url_joined(server_url, #[trigger] map_pages(entries)[k].file_name@)
                is Some && html_links(entries, server_url)[k] == escape_markdown_spec(
                url_joined(server_url, map_pages(entries)[k].file_name@)->0,
            ),
    decreases entries.len(),
{
    reveal(Seq::filter);
    if entries.len() > 0 {
        let rest = entries.drop_last();
        assert(listable(rest, server_url)) by {
            assert forall|i: int| 0 <= i < rest.len() implies #[trigger] rest[i] == entries[i] by {}
        }
        lemma_one_link_per_map_page(rest, server_url);
        let e = entries.last();
        assert(e == entries[entries.len() - 1]);
        assert(map_pages(entries) == if is_html(e) {
            map_pages(rest).push(e)
        } else {
            map_pages(rest)
        });
    }
}

/// Whether `e` is a file with the extension `html`.
fn entry_is_html(e: &FileEntry) -> (r: bool)
    ensures
        r == is_html(*e),
{
    if !e.is_file {
        return false;
    }
    match file_extension(e.file_name.as_str()) {
        Some(ext) => str_eq(ext.as_str(), "html"),
        None => false,
    }
}

/// Joins `lines` with a newline between each two.
fn join_with_newlines(lines: &Vec<String>) -> (r: String)
    ensures
        r@ == join_lines(lines@.map_values(|l: String| l@)),
{
    let mut r = String::new();
    let mut i: usize = 0;
    while i < lines.len()
        invariant
            i <= lines@.len(),
            r@ == join_lines(lines@.take(i as int).map_values(|l: String| l@)),
        decreases lines@.len() - i,
    {
        let ghost prev = lines@.take(i as int).map_values(|l: String| l@);
        let ghost next = lines@.take(i + 1).map_values(|l: String| l@);
        assert(next.drop_last() =~= prev);
        assert(next.last() == lines@[i as int]@);
        if i > 0 {
            r.append("\n");
        }
        r.append(lines[i].as_str());
        proof {
            reveal_strlit("\n");
            if i == 0 {
                assert(next =~= seq![lines@[0]@]);
            }
        }
        assert(r@ =~= join_lines(next));
        i = i + 1;
    }
    assert(lines@.take(lines@.len() as int) =~= lines@);
    r
}

/// The listing of the map pages among `entries`: the link of each `.html`
/// file, `server_url` joined with its name and escaped, one per line. It is
/// empty exactly when there is no map page.
pub fn list_html_files(entries: &Vec<FileEntry>, server_url: &str) -> (r: String)
    requires
        listable(entries@, server_url@),
    ensures
        r@ == list_text(entries@, server_url@),
        r@ == join_lines(page_links(entries@, server_url@)),
        r@.len() == 0 <==> !has_map_page(entries@),
{
    proof {
        lemma_one_link_per_map_page(entries@, server_url@);
        assert(html_links(entries@, server_url@) =~= page_links(entries@, server_url@));
    }
    let mut links: Vec<String> = Vec::new();
    let mut i: usize = 0;
    while i < entries.len()
        invariant
            i <= entries@.len(),
            listable(entries@, server_url@),
            links@.map_values(|l: String| l@) == html_links(entries@.take(i as int), server_url@),
            forall|j: int| 0 <= j < links@.len() ==> #[trigger] links@[j]@.len() > 0,
            links@.len() == 0 <==> !has_map_page(entries@.take(i as int)),
        decreases entries@.len() - i,
    {
        let ghost prev = entries@.take(i as int);
        let ghost grown = entries@.take(i + 1);
        assert(grown.drop_last() =~= prev);
        assert(grown.last() == entries@[i as int]);
        assert(grown[i as int] == entries@[i as int]);
        assert(forall|j: int| 0 <= j < i ==> #[trigger] grown[j] == prev[j]);
        proof {
            if has_map_page(prev) {
                let j = choose|j: int| 0 <= j < prev.len() && is_html(#[trigger] prev[j]);
                assert(is_html(grown[j]));
            }
            if has_map_page(grown) && !is_html(entries@[i as int]) {
                let j = choose|j: int| 0 <= j < grown.len() && is_html(#[trigger] grown[j]);
                assert(j != i);
                assert(is_html(prev[j]));
            }
        }
        let e = &entries[i];
        if entry_is_html(e) {
            assert(is_html(entries@[i as int]));
            match join_url(server_url, e.file_name.as_str()) {
                Some(link) => {
                    let escaped = escape_markdown(link.as_str());
                    assert(escaped@.len() > 0);
                    links.push(escaped);
                    assert(links@.map_values(|l: String| l@) =~= html_links(
                        entries@.take(i + 1),
                        server_url@,
                    ));
                },
                None => {},
            }
        }
        i = i + 1;
    }
    assert(entries@.take(entries@.len() as int) =~= entries@);
    let r = join_with_newlines(&links);
    proof {
        let lines = links@.map_values(|l: String| l@);
        if links@.len() > 0 {
            assert(lines[lines.len() - 1] == links@[links@.len() - 1]@);
        }
    }
    r
}

/// The listing of the map pages among `entries`, or `None` where listing
/// them fails: the server URL does not parse, a file has no extension, or a
/// map page's name does not join onto the server URL.
pub fn try_list_html_files(entries: &Vec<FileEntry>, server_url: &str) -> (r: Option<String>)
    ensures
        r is Some <==> listable(entries@, server_url@),
        r matches Some(text) ==> text@ == list_text(entries@, server_url@),
        r matches Some(text) ==> (text@.len() == 0 <==> !has_map_page(entries@)),
{
    if !parse_url(server_url) {
        return None;
    }
    let mut i: usize = 0;
    while i < entries.len()
        invariant
            i <= entries@.len(),
            url_parses(server_url@),
            forall|j: int|
                0 <= j < i && #[trigger] entries@[j].is_file ==> extension_spec(
                    entries@[j].file_name@,
                ) is Some,
            forall|j: int|
                0 <= j < i && is_html(#[trigger] entries@[j]) ==> url_joined(
                    server_url@,
                    entries@[j].file_name@,
                ) is Some,
        decreases entries@.len() - i,
    {
        let e = &entries[i];
        if e.is_file {
            if file_extension(e.file_name.as_str()).is_none() {
                return None;
            }
            if entry_is_html(e) && join_url(server_url, e.file_name.as_str()).is_none() {
                return None;
            }
        }
        i = i + 1;
    }
    Some(list_html_files(entries, server_url))
}

/// The `/list` command: it lists the map pages under the configured server
/// URL.
pub struct ListCommand {
    pub settings: Settings,
}

/// The reply to `/list` for a listing text: the listing, or a note that
/// there are no maps when it is empty.
pub open spec fn list_reply(files_as_text: Seq<char>) -> Seq<char> {
    if files_as_text.len() == 0 {
        "Нет карт"@
    } else {
        files_as_text
    }
}

impl ListCommand {
    /// A `/list` command that uses `settings`.
    pub fn new(settings: Settings) -> (r: Self)
        ensures
            r.settings == settings,
    {
        ListCommand { settings }
    }

    /// The reply to `/list` for the map directory's `entries` (sent as HTML),
    /// or `None` where listing them fails (see [`try_list_html_files`]).
    pub fn handle_command(&self, entries: &Vec<FileEntry>) -> (r: Option<String>)
        ensures
            r is Some <==> listable(entries@, self.settings.server_url@),
            r matches Some(reply) ==> reply@ == list_reply(
                list_text(entries@, self.settings.server_url@),
            ),
            r matches Some(reply) ==> if has_map_page(entries@) {
                reply@ == list_text(entries@, self.settings.server_url@)
            } else {
                reply@ == "Нет карт"@
            },
    {
        match try_list_html_files(entries, self.settings.server_url.as_str()) {
            None => None,
            Some(files_as_text) => {
                if files_as_text.as_str().unicode_len() == 0 {
                    Some(String::from_str("Нет карт"))
                } else {
                    Some(files_as_text)
                }
            },
        }
    }
}

/// Where the map-adding dialogue stands.
#[derive(Clone, Copy, PartialEq, Eq, Debug, Structural)]
pub enum AddCommandStep {
    Initial,
    TopLeft,
    BottomRight,
    Image,
}

impl Default for AddCommandStep {
    fn default() -> (r: Self)
        ensures
            r == AddCommandStep::Initial,
    {
        AddCommandStep::Initial
    }
}

/// An incoming message as the dialogue sees it. A text carries what reading
/// it as coordinates gave.
pub enum Incoming<C> {
    Text { data: String, coords: Result<C, GeoCoordsError> },
    Photo,
    Document,
    Other,
}

/// A prompt or complaint the bot sends.
#[derive(Clone, Copy, PartialEq, Eq, Debug, Structural)]
pub enum Reply {
    AskTopLeft,
    TopLeftError,
    AskBottomRight,
    BottomRightError,
    AskImage,
    ImageNotRecognized,
}

/// The words of a reply.
pub open spec fn reply_text(r: Reply) -> Seq<char> {
    match r {
        Reply::AskTopLeft => "#1. Введите координаты `верхнего левого угла` картинки  `12.3456, 12.3456`"@,
        Reply::TopLeftError => "#1. Ошибка в координатах. Формат: `12.3456, 12.3456`"@,
        Reply::AskBottomRight => "#2. Введите координаты `нижнего правого угла` картинки  `12.3456, 12.3456`"@,
        Reply::BottomRightError => "#2. Ошибка в координатах. Формат: `12.3456, 12.3456`"@,
        Reply::AskImage => "#3. Прикрепите изображение карты"@,
        Reply::ImageNotRecognized => "#3. Не могу распознать изображение"@,
    }
}

impl Reply {
    /// The words of the reply.
    pub fn text(&self) -> (r: &'static str)
        ensures
            r@ == reply_text(*self),
    {
        match self {
            Reply::AskTopLeft => "#1. Введите координаты `верхнего левого угла` картинки  `12.3456, 12.3456`",
            Reply::TopLeftError => "#1. Ошибка в координатах. Формат: `12.3456, 12.3456`",
            Reply::AskBottomRight => "#2. Введите координаты `нижнего правого угла` картинки  `12.3456, 12.3456`",
            Reply::BottomRightError => "#2. Ошибка в координатах. Формат: `12.3456, 12.3456`",
            Reply::AskImage => "#3. Прикрепите изображение карты",
            Reply::ImageNotRecognized => "#3. Не могу распознать изображение",
        }
    }

    /// Whether the reply is sent as Markdown; every reply but the complaint
    /// about an unrecognised picture is.
    pub fn markdown(&self) -> (r: bool)
        ensures
            r == (*self != Reply::ImageNotRecognized),
    {
        match self {
            Reply::ImageNotRecognized => false,
            _ => true,
        }
    }
}

/// What the dialogue asks its caller to do next.
#[derive(Clone, Copy, PartialEq, Eq, Debug, Structural)]
pub enum AddMapAction {
    /// Send this reply.
    Send(Reply),
    /// Fetch the first size of the attached photo and publish the map.
    FetchPhoto,
    /// Fetch the attached document and publish the map.
    FetchDocument,
    /// Do nothing.
    Nothing,
}

/// The `/add_map` dialogue: it asks for the top-left corner, then the
/// bottom-right corner, then the map picture.
pub struct AddMapCommand<C> {
    pub step: AddCommandStep,
    pub top_left: Option<C>,
    pub bottom_right: Option<C>,
    pub token: String,
}

impl<C> AddMapCommand<C> {
    /// The corners known so far match the step: none before the top-left
    /// one is given, both once the picture is awaited.
    pub open spec fn wf(&self) -> bool {
        match self.step {
            AddCommandStep::Initial | AddCommandStep::TopLeft => self.top_left is None
                && self.bottom_right is None,
            AddCommandStep::BottomRight => self.top_left is Some && self.bottom_right is None,
            AddCommandStep::Image => self.top_left is Some && self.bottom_right is Some,
        }
    }

    /// A dialogue that has not started, using `token` to fetch files.
    pub open spec fn fresh(token: String) -> Self {
        AddMapCommand { step: AddCommandStep::Initial, top_left: None, bottom_right: None, token }
    }

    /// What one message does to the dialogue: its next state and the action.
    pub open spec fn next(self, msg: Incoming<C>) -> (Self, AddMapAction) {
        match self.step {
            AddCommandStep::Initial => (
                AddMapCommand { step: AddCommandStep::TopLeft, ..self },
                AddMapAction::Send(Reply::AskTopLeft),
            ),
            AddCommandStep::TopLeft => match msg {
                Incoming::Text { coords: Ok(c), .. } => (
                    AddMapCommand { step: AddCommandStep::BottomRight, top_left: Some(c), ..self },
                    AddMapAction::Send(Reply::AskBottomRight),
                ),
                Incoming::Text { coords: Err(_), .. } => (
                    self,
                    AddMapAction::Send(Reply::TopLeftError),
                ),
                _ => (self, AddMapAction::Send(Reply::AskTopLeft)),
            },
            AddCommandStep::BottomRight => match msg {
                Incoming::Text { coords: Ok(c), .. } => (
                    AddMapCommand { step: AddCommandStep::Image, bottom_right: Some(c), ..self },
                    AddMapAction::Send(Reply::AskImage),
                ),
                Incoming::Text { coords: Err(_), .. } => (
                    self,
                    AddMapAction::Send(Reply::BottomRightError),
                ),
                _ => (self, AddMapAction::Nothing),
            },
            AddCommandStep::Image => match msg {
                Incoming::Photo => (self, AddMapAction::FetchPhoto),
                Incoming::Document => (self, AddMapAction::FetchDocument),
                _ => (self, AddMapAction::Send(Reply::ImageNotRecognized)),
            },
        }
    }

    /// A dialogue that has not started, using `token` to fetch files.
    pub fn new(token: String) -> (r: Self)
        ensures
            r == Self::fresh(token),
            r.wf(),
    {
        AddMapCommand {
            step: AddCommandStep::default(),
            top_left: None,
            bottom_right: None,
            token,
        }
    }

    /// Takes one message: records a corner that was read, moves to the next
    /// question and says what to send or fetch.
    pub fn handle_command(&mut self, message: Incoming<C>) -> (r: AddMapAction)
        requires
            old(self).wf(),
        ensures
            (*final(self), r) == old(self).next(message),
            final(self).wf(),
    {
        match self.step {
            AddCommandStep::Initial => {
                self.step = AddCommandStep::TopLeft;
                AddMapAction::Send(Reply::AskTopLeft)
            },
            AddCommandStep::TopLeft => match message {
                Incoming::Text { coords: Ok(c), .. } => {
                    self.top_left = Some(c);
                    self.step = AddCommandStep::BottomRight;
                    AddMapAction::Send(Reply::AskBottomRight)
                },
                Incoming::Text { coords: Err(_), .. } => AddMapAction::Send(Reply::TopLeftError),
                _ => AddMapAction::Send(Reply::AskTopLeft),
            },
            AddCommandStep::BottomRight => match message {
                Incoming::Text { coords: Ok(c), .. } => {
                    self.bottom_right = Some(c);
                    self.step = AddCommandStep::Image;
                    AddMapAction::Send(Reply::AskImage)
                },
                Incoming::Text { coords: Err(_), .. } => AddMapAction::Send(Reply::BottomRightError),
                _ => AddMapAction::Nothing,
            },
            AddCommandStep::Image => match message {
                Incoming::Photo => AddMapAction::FetchPhoto,
                Incoming::Document => AddMapAction::FetchDocument,
                _ => AddMapAction::Send(Reply::ImageNotRecognized),
            },
        }
    }

    /// Both corners, once the dialogue is waiting for the picture.
    pub fn corners(&self) -> (r: Option<(&C, &C)>)
        requires
            self.wf(),
        ensures
            r is Some <==> self.step == AddCommandStep::Image,
            r matches Some((a, b)) ==> self.top_left == Some(*a) && self.bottom_right == Some(*b),
    {
        match (&self.top_left, &self.bottom_right) {
            (Some(a), Some(b)) => Some((a, b)),
            _ => None,
        }
    }
}

/// The address of a Telegram file: the Bot API's base address, then
/// `file/bot`, the bot's token, a slash and the file's path on the server.
pub open spec fn file_link(api_base: Seq<char>, token: Seq<char>, path: Seq<char>) -> Seq<char> {
    api_base + "file/bot"@ + token + seq!['/'] + path
}

/// Calls `telegram_bot::File::get_url` with `token` on a file record whose
/// `file_path` is `file_path`. The contract claims that there is an address
/// exactly when there is a path, and that it is `file_link` of some base
/// address, the token and the path: the base comes from the environment
/// variable `TELEGRAM_API_URL` (or the public API address), so nothing is
/// said of which it is.
#[verifier::external_body]
fn telegram_file_url(file_path: Option<String>, token: &str) -> (r: Option<String>)
    ensures
        match file_path {
            None => r is None,
            Some(path) => r matches Some(url) && exists|api_base: Seq<char>|
                url@ == #[trigger] file_link(api_base, token@, path@),
        },
{
    let file = telegram_bot::File { file_id: String::new(), file_size: None, file_path };
    file.get_url(token)
}

impl<C> AddMapCommand<C> {
    /// The address to download the map picture from, given the path the
    /// Telegram server reported for the uploaded file (`None` when it
    /// reported none): the file's address under this dialogue's bot token.
    pub fn picture_url(&self, file_path: Option<String>) -> (r: Option<String>)
        ensures
            r is Some <==> file_path is Some,
            r matches Some(url) ==> exists|api_base: Seq<char>|
                url@ == #[trigger] file_link(api_base, self.token@, file_path->0@),
    {
        telegram_file_url(file_path, self.token.as_str())
    }
}

/// Every message keeps the dialogue's corners in step with its questions.
pub proof fn lemma_dialogue_keeps_wf<C>(cmd: AddMapCommand<C>, msg: Incoming<C>)
    requires
        cmd.wf(),
    ensures
        cmd.next(msg).0.wf(),
{
}

/// Once the dialogue waits for the picture it stays there, whatever comes
/// in, with the same corners.
pub proof fn lemma_picture_step_is_final<C>(cmd: AddMapCommand<C>, msg: Incoming<C>)
    requires
        cmd.step == AddCommandStep::Image,
    ensures
        cmd.next(msg).0 == cmd,
{
}

/// The dialogue, step by step. Before its first message it asks for the
/// top-left corner. Waiting for a corner, a text that reads as coordinates
/// records that corner and asks the next question, a text that does not is
/// answered with the step's complaint and changes nothing, and any other
/// message changes nothing: the top-left question is asked again, while the
/// bottom-right step stays silent. Waiting for the picture, a photo or a
/// document is fetched and anything else draws the complaint that the
/// picture is not recognised; the dialogue stays as it is.
pub proof fn lemma_dialogue_steps<C>(cmd: AddMapCommand<C>, msg: Incoming<C>)
    ensures
        cmd.step == AddCommandStep::Initial ==> {
            let (c2, action) = cmd.next(msg);
            &&& action == AddMapAction::Send(Reply::AskTopLeft)
            &&& c2.step == AddCommandStep::TopLeft
            &&& c2.top_left == cmd.top_left
            &&& c2.bottom_right == cmd.bottom_right
            &&& c2.token == cmd.token
        },
        cmd.step == AddCommandStep::TopLeft ==> (msg matches Incoming::Text { coords: Ok(c), .. }
            ==> {
            let (c2, action) = cmd.next(msg);
            &&& action == AddMapAction::Send(Reply::AskBottomRight)
            &&& c2.step == AddCommandStep::BottomRight
            &&& c2.top_left == Some(c)
            &&& c2.bottom_right == cmd.bottom_right
            &&& c2.token == cmd.token
        }),
        cmd.step == AddCommandStep::TopLeft ==> (msg matches Incoming::Text { coords: Err(_), .. }
            ==> cmd.next(msg) == (cmd, AddMapAction::Send(Reply::TopLeftError))),
        cmd.step == AddCommandStep::TopLeft && !(msg is Text) ==> cmd.next(msg) == (
            cmd,
            AddMapAction::Send(Reply::AskTopLeft),
        ),
        cmd.step == AddCommandStep::BottomRight ==> (msg matches Incoming::Text { coords: Ok(c), .. }
            ==> {
            let (c2, action) = cmd.next(msg);
            &&& action == AddMapAction::Send(Reply::AskImage)
            &&& c2.step == AddCommandStep::Image
            &&& c2.top_left == cmd.top_left
            &&& c2.bottom_right == Some(c)
            &&& c2.token == cmd.token
        }),
        cmd.step == AddCommandStep::BottomRight ==> (msg matches Incoming::Text { coords: Err(_), .. }
            ==> cmd.next(msg) == (cmd, AddMapAction::Send(Reply::BottomRightError))),
        cmd.step == AddCommandStep::BottomRight && !(msg is Text) ==> cmd.next(msg) == (
            cmd,
            AddMapAction::Nothing,
        ),
        cmd.step == AddCommandStep::Image && msg is Photo ==> cmd.next(msg) == (
            cmd,
            AddMapAction::FetchPhoto,
        ),
        cmd.step == AddCommandStep::Image && msg is Document ==> cmd.next(msg) == (
            cmd,
            AddMapAction::FetchDocument,
        ),
        cmd.step == AddCommandStep::Image && (msg is Text || msg is Other) ==> cmd.next(msg) == (
            cmd,
            AddMapAction::Send(Reply::ImageNotRecognized),
        ),
{
}

/// `/add_map` starts a new dialogue whatever the bot was doing, a dialogue in
/// progress included: the new one has no corners, carries the bot's token,
/// and has asked for the top-left corner.
pub proof fn lemma_add_map_starts_over<C>(bot: Bot<C>, data: String, coords: Result<C, GeoCoordsError>)
    requires
        data@ == "/add_map"@,
    ensures
        ({
            let (b2, action) = bot.next(Incoming::Text { data, coords });
            &&& action == BotAction::AddMap(AddMapAction::Send(Reply::AskTopLeft))
            &&& b2.settings == bot.settings
            &&& b2.current_command matches Some(CommandKind::AddMap(cmd)) && cmd.step
                == AddCommandStep::TopLeft && cmd.top_left is None && cmd.bottom_right is None
                && cmd.token == bot.settings.bot_token
        }),
{
    reveal_strlit("/add_map");
    assert(data@[0] == '/');
}

/// `/list` asks for the listing and leaves the bot as it is; any other text
/// that starts with a slash is ignored.
pub proof fn lemma_other_commands<C>(bot: Bot<C>, data: String, coords: Result<C, GeoCoordsError>)
    requires
        data@.len() > 0,
        data@[0] == '/',
        data@ != "/add_map"@,
    ensures
        data@ == "/list"@ ==> bot.next(Incoming::Text { data, coords }) == (bot, BotAction::List),
        data@ != "/list"@ ==> bot.next(Incoming::Text { data, coords }) == (bot, BotAction::Nothing),
{
}

/// Outside a map dialogue, a message that is not a slash command is
/// ignored; inside one, it goes to the dialogue and nowhere else.
pub proof fn lemma_plain_messages<C>(bot: Bot<C>, msg: Incoming<C>)
    requires
        !is_command_text(msg),
    ensures
        !(bot.current_command matches Some(CommandKind::AddMap(_))) ==> bot.next(msg) == (
            bot,
            BotAction::Nothing,
        ),
        bot.current_command matches Some(CommandKind::AddMap(cmd)) ==> {
            let (b2, action) = bot.next(msg);
            &&& b2.settings == bot.settings
            &&& b2.current_command == Some(CommandKind::AddMap(cmd.next(msg).0))
            &&& action == BotAction::AddMap(cmd.next(msg).1)
        },
{
}

/// The command a conversation is in.
pub enum CommandKind<C> {
    AddMap(AddMapCommand<C>),
    List(ListCommand),
}

/// What the bot asks its caller to do with a message.
#[derive(Clone, Copy, PartialEq, Eq, Debug, Structural)]
pub enum BotAction {
    /// Carry out this step of the map-adding dialogue.
    AddMap(AddMapAction),
    /// Send the listing of published maps, then report it with `list_sent`.
    List,
    /// Do nothing.
    Nothing,
}

/// How a text reads as a slash command.
enum Slash {
    AddMap,
    List,
    Other,
    NotACommand,
}

/// Reads `text` as `/add_map`, `/list`, another slash command, or none.
fn classify_text(text: &str) -> (r: Slash)
    ensures
        r is NotACommand <==> !(text@.len() > 0 && text@[0] == '/'),
        r is AddMap <==> text@ == "/add_map"@,
        r is List <==> text@ == "/list"@,
{
    proof {
        reveal_strlit("/add_map");
        reveal_strlit("/list");
    }
    if text.unicode_len() == 0 || text.get_char(0) != '/' {
        Slash::NotACommand
    } else if str_eq(text, "/add_map") {
        Slash::AddMap
    } else if str_eq(text, "/list") {
        Slash::List
    } else {
        Slash::Other
    }
}

/// The bot: its settings and the command the conversation is in.
pub struct Bot<C> {
    pub settings: Settings,
    pub current_command: Option<CommandKind<C>>,
}

/// Whether the message is a text that starts with a slash.
pub open spec fn is_command_text<C>(msg: Incoming<C>) -> bool {
    match msg {
        Incoming::Text { data, .. } => data@.len() > 0 && data@[0] == '/',
        _ => false,
    }
}

/// The text of a text message.
pub open spec fn text_of<C>(msg: Incoming<C>) -> Seq<char> {
    match msg {
        Incoming::Text { data, .. } => data@,
        _ => Seq::empty(),
    }
}

impl<C> Bot<C> {
    /// A map-adding dialogue, if the conversation is in one, keeps its
    /// corners in step with its questions.
    pub open spec fn wf(&self) -> bool {
        match self.current_command {
            Some(CommandKind::AddMap(cmd)) => cmd.wf(),
            _ => true,
        }
    }

    /// What one message does to the bot: its next state and the action. A
    /// slash command `/add_map` starts a new dialogue, `/list` asks for the
    /// listing and any other slash command is ignored; any other message goes
    /// to the dialogue in progress, if there is one.
    pub open spec fn next(self, msg: Incoming<C>) -> (Self, BotAction) {
        if is_command_text(msg) {
            if text_of(msg) == "/add_map"@ {
                let (cmd, action) = AddMapCommand::fresh(self.settings.bot_token).next(msg);
                (
                    Bot { current_command: Some(CommandKind::AddMap(cmd)), ..self },
                    BotAction::AddMap(action),
                )
            } else if text_of(msg) == "/list"@ {
                (self, BotAction::List)
            } else {
                (self, BotAction::Nothing)
            }
        } else {
            match self.current_command {
                Some(CommandKind::AddMap(cmd)) => {
                    let (cmd2, action) = cmd.next(msg);
                    (
                        Bot { current_command: Some(CommandKind::AddMap(cmd2)), ..self },
                        BotAction::AddMap(action),
                    )
                },
                _ => (self, BotAction::Nothing),
            }
        }
    }

    /// A bot with `settings`, in no command yet.
    pub fn new(settings: Settings) -> (r: Self)
        ensures
            r.settings == settings,
            r.current_command is None,
            r.wf(),
    {
        Bot { settings, current_command: None }
    }

    /// Takes one message and says what to do with it.
    pub fn handle_message(&mut self, message: Incoming<C>) -> (r: BotAction)
        requires
            old(self).wf(),
        ensures
            (*final(self), r) == old(self).next(message),
            final(self).wf(),
    {
        let slash = match &message {
            Incoming::Text { data, .. } => classify_text(data.as_str()),
            _ => Slash::NotACommand,
        };
        match slash {
            Slash::AddMap => {
                let mut add_map_command = AddMapCommand::new(self.settings.bot_token.clone());
                let action = add_map_command.handle_command(message);
                self.current_command = Some(CommandKind::AddMap(add_map_command));
                return BotAction::AddMap(action);
            },
            Slash::List => {
                return BotAction::List;
            },
            Slash::Other => {
                return BotAction::Nothing;
            },
            Slash::NotACommand => {},
        }
        match &mut self.current_command {
            Some(CommandKind::AddMap(command)) => BotAction::AddMap(command.handle_command(message)),
            _ => BotAction::Nothing,
        }
    }

    /// Records that the listing was sent: the conversation is now in `/list`.
    pub fn list_sent(&mut self)
        ensures
            final(self).settings == old(self).settings,
            final(self).current_command == Some(
                CommandKind::<C>::List(ListCommand { settings: old(self).settings }),
            ),
            final(self).wf(),
    {
        let list_command = ListCommand::new(self.settings.clone());
        self.current_command = Some(CommandKind::List(list_command));
    }
}

/// Every message keeps the bot well formed.
pub proof fn lemma_bot_keeps_wf<C>(bot: Bot<C>, msg: Incoming<C>)
    requires
        bot.wf(),
    ensures
        bot.next(msg).0.wf(),
{
    match bot.current_command {
        Some(CommandKind::AddMap(cmd)) => lemma_dialogue_keeps_wf(cmd, msg),
        _ => {},
    }
}

} // verus!
