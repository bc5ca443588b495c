//! AMCP, the command protocol of CasparCG Server: the commands, the replies, and what to do next
//! while a command is under way.

use crate::decimal::{
    decimal, decimal_text, is_digit, law_decimal_is_read_back, lemma_decimal_digits,
    parse_unsigned, unsigned,
};
use crate::float::{is_zero, quotient, single, Float32, Value};
use crate::float_text::{number, parse_number};
use crate::text::{
    char_index, chars_of, contains, find_char, find_pattern, is_blank, is_one_word, is_space,
    law_pattern_is_contained, law_trimming_takes_white_space_away, lemma_char_index,
    lemma_contained, lemma_pattern_first, lemma_pattern_found, lemma_pattern_missing,
    lemma_spaced_end, lemma_trim, lemma_words_of_spaced, part, pattern_index, pieces_between, same,
    spaced, split_at_pattern, split_words, stands_at, string_of, trim, trimmed, views, words,
};
use vstd::prelude::*;
use vstd::string::StringExecFns;

verus! {

/// Media type returned by CINF command.
#[derive(Debug, Clone, Copy, PartialEq, Eq, Structural)]
pub enum MediaType {
    Movie,
    Still,
    Audio,
}

/// Media file information from CasparCG.
#[derive(Debug, Clone)]
pub struct MediaInfo {
    pub filename: String,
    pub media_type: MediaType,
    pub frame_count: u32,
    pub frame_rate: Float32,
}

/// What is known of a media file.
pub struct InfoModel {
    pub filename: Seq<char>,
    pub media_type: MediaType,
    pub frame_count: u32,
    pub frame_rate: Value,
}

impl View for MediaInfo {
    type V = InfoModel;

    open spec fn view(&self) -> InfoModel {
        InfoModel {
            filename: self.filename@,
            media_type: self.media_type,
            frame_count: self.frame_count,
            frame_rate: self.frame_rate@,
        }
    }
}

/// What keeps a CINF response from being read.
#[derive(Debug, Clone)]
pub enum CinfError {
    /// The filename has no closing quote.
    Quote,
    /// The response has too few fields.
    Fields { line: String },
    MediaType { name: String },
    FrameCount { field: String },
    Numerator { field: String },
    Denominator { field: String },
    FrameRate { field: String },
}

/// What keeps a CINF response from being read, with the words that an error quotes.
pub enum CinfFault {
    Quote,
    Fields { line: Seq<char> },
    MediaType { name: Seq<char> },
    FrameCount { field: Seq<char> },
    Numerator { field: Seq<char> },
    Denominator { field: Seq<char> },
    FrameRate { field: Seq<char> },
}

impl View for CinfError {
    type V = CinfFault;

    open spec fn view(&self) -> CinfFault {
        match *self {
            CinfError::Quote => CinfFault::Quote,
            CinfError::Fields { line } => CinfFault::Fields { line: line@ },
            CinfError::MediaType { name } => CinfFault::MediaType { name: name@ },
            CinfError::FrameCount { field } => CinfFault::FrameCount { field: field@ },
            CinfError::Numerator { field } => CinfFault::Numerator { field: field@ },
            CinfError::Denominator { field } => CinfFault::Denominator { field: field@ },
            CinfError::FrameRate { field } => CinfFault::FrameRate { field: field@ },
        }
    }
}

/// The words for a CINF response that cannot be read.
pub open spec fn cinf_fault_text(fault: CinfFault) -> Seq<char> {
    match fault {
        CinfFault::Quote => "failed to parse CINF response"@,
        CinfFault::Fields { line } => "failed to parse CINF response: "@ + line,
        CinfFault::MediaType { name } => "unknown media type: "@ + name,
        CinfFault::FrameCount { field } => "invalid frame count in CINF response: "@ + field,
        CinfFault::Numerator { field } => "invalid frame rate numerator in CINF response: "@
            + field,
        CinfFault::Denominator { field } => "invalid frame rate denominator in CINF response: "@
            + field,
        CinfFault::FrameRate { field } => "invalid frame rate in CINF response: "@ + field,
    }
}

impl CinfError {
    /// The words for this error.
    pub fn message(&self) -> (message: String)
        ensures
            message@ == cinf_fault_text(self@),
    {
        match self {
            CinfError::Quote => String::from_str("failed to parse CINF response"),
            CinfError::Fields { line } => {
                String::from_str("failed to parse CINF response: ").concat(line.as_str())
            },
            CinfError::MediaType { name } => {
                String::from_str("unknown media type: ").concat(name.as_str())
            },
            CinfError::FrameCount { field } => {
                String::from_str("invalid frame count in CINF response: ").concat(field.as_str())
            },
            CinfError::Numerator { field } => {
                String::from_str("invalid frame rate numerator in CINF response: ").concat(
                    field.as_str(),
                )
            },
            CinfError::Denominator { field } => {
                String::from_str("invalid frame rate denominator in CINF response: ").concat(
                    field.as_str(),
                )
            },
            CinfError::FrameRate { field } => {
                String::from_str("invalid frame rate in CINF response: ").concat(field.as_str())
            },
        }
    }
}

/// Why an exchange with the server failed.
#[derive(Debug, Clone)]
pub enum AmcpError {
    /// The server did not accept a connection in time.
    ConnectTimeout { address: String },
    /// No connection could be made.
    Connect { address: String, cause: String },
    /// A command could not be sent in time.
    SendTimeout { command: String },
    /// No response to a command came in time.
    ResponseTimeout { command: String },
    /// No further line came in time.
    ReadTimeout,
    /// The connection broke.
    Io { cause: String },
    /// The server refused a command.
    Refused { response: String },
    /// An INFO response holds no frame rate.
    Framerate,
    /// A CINF response cannot be read.
    Cinf(CinfError),
}

/// Why an exchange with the server failed, with the words that an error quotes.
pub enum AmcpFault {
    ConnectTimeout { address: Seq<char> },
    Connect { address: Seq<char>, cause: Seq<char> },
    SendTimeout { command: Seq<char> },
    ResponseTimeout { command: Seq<char> },
    ReadTimeout,
    Io { cause: Seq<char> },
    Refused { response: Seq<char> },
    Framerate,
    Cinf(CinfFault),
}

impl View for AmcpError {
    type V = AmcpFault;

    open spec fn view(&self) -> AmcpFault {
        match *self {
            AmcpError::ConnectTimeout { address } => AmcpFault::ConnectTimeout {
                address: address@,
            },
            AmcpError::Connect { address, cause } => AmcpFault::Connect {
                address: address@,
                cause: cause@,
            },
            AmcpError::SendTimeout { command } => AmcpFault::SendTimeout { command: command@ },
            AmcpError::ResponseTimeout { command } => AmcpFault::ResponseTimeout {
                command: command@,
            },
            AmcpError::ReadTimeout => AmcpFault::ReadTimeout,
            AmcpError::Io { cause } => AmcpFault::Io { cause: cause@ },
            AmcpError::Refused { response } => AmcpFault::Refused { response: response@ },
            AmcpError::Framerate => AmcpFault::Framerate,
            AmcpError::Cinf(error) => AmcpFault::Cinf(error@),
        }
    }
}

/// The words for an exchange that failed.
pub open spec fn amcp_fault_text(fault: AmcpFault) -> Seq<char> {
    match fault {
        AmcpFault::ConnectTimeout { address } => "connection to "@ + address + " timed out"@,
        AmcpFault::Connect { address, cause } => "failed to connect to "@ + address + ": "@
            + cause,
        AmcpFault::SendTimeout { command } => "send timed out: "@ + command,
        AmcpFault::ResponseTimeout { command } => "response timed out: "@ + command,
        AmcpFault::ReadTimeout => "read timed out"@,
        AmcpFault::Io { cause } => cause,
        AmcpFault::Refused { response } => "AMCP error: "@ + response,
        AmcpFault::Framerate => "could not parse channel framerate from INFO response"@,
        AmcpFault::Cinf(fault) => cinf_fault_text(fault),
    }
}

impl AmcpError {
    /// The words for this error.
    pub fn message(&self) -> (message: String)
        ensures
            message@ == amcp_fault_text(self@),
    {
        match self {
            AmcpError::ConnectTimeout { address } => {
                String::from_str("connection to ").concat(address.as_str()).concat(" timed out")
            },
            AmcpError::Connect { address, cause } => {
                String::from_str("failed to connect to ").concat(address.as_str()).concat(
                    ": ",
                ).concat(cause.as_str())
            },
            AmcpError::SendTimeout { command } => {
                String::from_str("send timed out: ").concat(command.as_str())
            },
            AmcpError::ResponseTimeout { command } => {
                String::from_str("response timed out: ").concat(command.as_str())
            },
            AmcpError::ReadTimeout => String::from_str("read timed out"),
            AmcpError::Io { cause } => cause.clone(),
            AmcpError::Refused { response } => {
                String::from_str("AMCP error: ").concat(response.as_str())
            },
            AmcpError::Framerate => {
                String::from_str("could not parse channel framerate from INFO response")
            },
            AmcpError::Cinf(error) => error.message(),
        }
    }
}

/// The number that stands in a text before the first closing tag of a frame rate.
pub open spec fn framerate_field(s: Seq<char>) -> Option<Value> {
    number(trim(pieces_between(s, "</framerate>"@, 0)[0]))
}

/// The frame rate that the XML of a channel gives: the quotient of its first two `<framerate>`
/// elements, where both are numbers and the second is not zero.
pub open spec fn channel_rate(xml: Seq<char>) -> Option<Value> {
    let fields = pieces_between(xml, "<framerate>"@, 0);
    if fields.len() < 3 {
        None
    } else {
        match (framerate_field(fields[1]), framerate_field(fields[2])) {
            (Some(num), Some(den)) => if is_zero(den) {
                None
            } else {
                Some(quotient(single(), num, den))
            },
            _ => None,
        }
    }
}

fn read_framerate_field(chars: &Vec<char>) -> (field: Option<Float32>)
    ensures
        match field {
            Some(value) => framerate_field(chars@) == Some(value@),
            None => framerate_field(chars@) is None,
        },
{
    proof {
        reveal_strlit("</framerate>");
    }
    let parts = split_at_pattern(chars, &chars_of("</framerate>"));
    proof {
        assert(views(parts@).len() == parts@.len());
        assert(pieces_between(chars@, "</framerate>"@, 0).len() > 0);
        assert(views(parts@)[0] == parts@[0]@);
    }
    parse_number(&trimmed(&parts[0]))
}

/// The upper-case form of a text.
pub uninterp spec fn uppercase(s: Seq<char>) -> Seq<char>;

/// A text of ASCII characters alone.
pub open spec fn is_ascii_text(s: Seq<char>) -> bool {
    forall|i: int| 0 <= i < s.len() ==> (#[trigger] s[i]) <= '\u{7f}'
}

/// The upper-case form of an ASCII character.
pub open spec fn ascii_upper(c: char) -> char {
    if 'a' <= c <= 'z' {
        (c as int - 0x20) as char
    } else {
        c
    }
}

/// Calls `str::to_uppercase`, which gives the upper-case form of a text by the rules of Unicode
/// and depends on nothing but the text. Of an ASCII text it changes the letters `a` to `z` to
/// `A` to `Z`, each in its place, and nothing else.
#[verifier::external_body]
fn to_uppercase(s: &String) -> (upper: String)
    ensures
        upper@ == uppercase(s@),
        is_ascii_text(s@) ==> upper@ == s@.map_values(|c: char| ascii_upper(c)),
{
    s.to_uppercase()
}

/// The media type of a name in upper case.
pub open spec fn media_type_of(name: Seq<char>) -> Option<MediaType> {
    if name == "MOVIE"@ {
        Some(MediaType::Movie)
    } else if name == "STILL"@ {
        Some(MediaType::Still)
    } else if name == "AUDIO"@ {
        Some(MediaType::Audio)
    } else {
        None
    }
}

/// Reads a media type in upper case.
pub fn media_type_named(name: &String) -> (media_type: Option<MediaType>)
    ensures
        media_type == media_type_of(name@),
{
    let chars = chars_of(name.as_str());
    if same(&chars, &chars_of("MOVIE")) {
        Some(MediaType::Movie)
    } else if same(&chars, &chars_of("STILL")) {
        Some(MediaType::Still)
    } else if same(&chars, &chars_of("AUDIO")) {
        Some(MediaType::Audio)
    } else {
        None
    }
}

/// The fields of a CINF response that follow the filename. A filename in quotes ends at the
/// second quote, and one ASCII character stands between it and the next field.
pub open spec fn cinf_fields(line: Seq<char>) -> Result<Seq<Seq<char>>, CinfFault> {
    if line.len() > 0 && line[0] == '"' {
        let quote = char_index(line, '"', 1);
        if quote >= line.len() {
            Err(CinfFault::Quote)
        } else if quote + 1 >= line.len() || line[quote + 1] > '\u{7f}' {
            Err(CinfFault::Fields { line })
        } else {
            Ok(words(line.skip(quote + 2), 0))
        }
    } else {
        let all = words(line, 0);
        Ok(
            if all.len() == 0 {
                all
            } else {
                all.drop_first()
            },
        )
    }
}

/// The frame rate that a field of a CINF response gives: `num/den` stands for `den / num`.
pub open spec fn cinf_rate(field: Seq<char>) -> Result<Value, CinfFault> {
    let slash = char_index(field, '/', 0);
    if slash < field.len() {
        match (number(field.take(slash)), number(field.skip(slash + 1))) {
            (None, _) => Err(CinfFault::Numerator { field }),
            (_, None) => Err(CinfFault::Denominator { field }),
            (Some(num), Some(den)) => Ok(quotient(single(), den, num)),
        }
    } else {
        match number(field) {
            Some(rate) => Ok(rate),
            None => Err(CinfFault::FrameRate { field }),
        }
    }
}

/// What the fields of a CINF response say of a file, where `upper` is the upper-case form of the
/// first one. The fields are the media type, the size, the time of the last change, the number
/// of frames and the frame rate.
pub open spec fn cinf_info(
    fields: Seq<Seq<char>>,
    upper: Seq<char>,
    filename: Seq<char>,
) -> Result<InfoModel, CinfFault> {
    match media_type_of(upper) {
        None => Err(CinfFault::MediaType { name: upper }),
        Some(media_type) => match unsigned(fields[3], u32::MAX as nat) {
            Err(_) => Err(CinfFault::FrameCount { field: fields[3] }),
            Ok(frames) => match cinf_rate(fields[4]) {
                Err(fault) => Err(fault),
                Ok(frame_rate) => Ok(
                    InfoModel { filename, media_type, frame_count: frames as u32, frame_rate },
                ),
            },
        },
    }
}

/// What a CINF response says of a file.
pub open spec fn cinf_response(line: Seq<char>, filename: Seq<char>) -> Result<
    InfoModel,
    CinfFault,
> {
    match cinf_fields(trim(line)) {
        Err(fault) => Err(fault),
        Ok(fields) => if fields.len() < 5 {
            Err(CinfFault::Fields { line: trim(line) })
        } else {
            cinf_info(fields, uppercase(fields[0]), filename)
        },
    }
}

/// The fields of a CINF response that follow the filename.
fn read_cinf_fields(line: &Vec<char>) -> (fields: Result<Vec<Vec<char>>, CinfError>)
    ensures
        match fields {
            Ok(fields) => cinf_fields(line@) == Ok::<_, CinfFault>(views(fields@)),
            Err(error) => cinf_fields(line@) == Err::<Seq<Seq<char>>, _>(error@),
        },
{
    if line.len() > 0 && line[0] == '"' {
        let quote: usize = find_char(line, '"', 1);
        if quote >= line.len() {
            return Err(CinfError::Quote);
        }
        if line.len() - quote <= 1 || line[quote + 1] > '\u{7f}' {
            return Err(CinfError::Fields { line: string_of(line) });
        }
        let rest = part(line, quote + 2, line.len());
        proof {
            assert(rest@ =~= line@.skip(quote + 2));
        }
        return Ok(split_words(&rest));
    }
    let mut all = split_words(line);
    let ghost texts = views(all@);
    if all.len() > 0 {
        let _first = all.remove(0);
        proof {
            assert(views(all@) =~= texts.drop_first());
        }
    }
    Ok(all)
}

/// The frame rate that a field of a CINF response gives.
fn read_cinf_rate(field: &Vec<char>) -> (rate: Result<Float32, CinfError>)
    ensures
        match rate {
            Ok(value) => cinf_rate(field@) == Ok::<_, CinfFault>(value@),
            Err(error) => cinf_rate(field@) == Err::<Value, _>(error@),
        },
{
    let slash: usize = find_char(field, '/', 0);
    if slash < field.len() {
        let before = part(field, 0, slash);
        let after = part(field, slash + 1, field.len());
        proof {
            assert(before@ =~= field@.take(slash as int));
            assert(after@ =~= field@.skip(slash + 1));
        }
        let num = parse_number(&before);
        let den = parse_number(&after);
        match (num, den) {
            (None, _) => Err(CinfError::Numerator { field: string_of(field) }),
            (_, None) => Err(CinfError::Denominator { field: string_of(field) }),
            (Some(num), Some(den)) => Ok(den.divided_by(&num)),
        }
    } else {
        match parse_number(field) {
            Some(rate) => Ok(rate),
            None => Err(CinfError::FrameRate { field: string_of(field) }),
        }
    }
}

/// Reads the fields of a CINF response, where `upper` is the upper-case form of the first one.
pub fn read_cinf_info(fields: &Vec<Vec<char>>, upper: String, filename: &str) -> (info: Result<
    MediaInfo,
    CinfError,
>)
    requires
        fields@.len() >= 5,
    ensures
        match info {
            Ok(info) => cinf_info(views(fields@), upper@, filename@) == Ok::<_, CinfFault>(info@),
            Err(error) => cinf_info(views(fields@), upper@, filename@) == Err::<InfoModel, _>(
                error@,
            ),
        },
{
    proof {
        assert(views(fields@)[3] == fields@[3]@);
        assert(views(fields@)[4] == fields@[4]@);
    }
    let media_type: MediaType = match media_type_named(&upper) {
        Some(media_type) => media_type,
        None => {
            return Err(CinfError::MediaType { name: upper });
        },
    };
    let frame_count: u32 = match parse_unsigned(&fields[3], u32::MAX) {
        Ok(frame_count) => frame_count,
        Err(_) => {
            return Err(CinfError::FrameCount { field: string_of(&fields[3]) });
        },
    };
    match read_cinf_rate(&fields[4]) {
        Ok(frame_rate) => Ok(
            MediaInfo {
                filename: String::from_str(filename),
                media_type,
                frame_count,
                frame_rate,
            },
        ),
        Err(error) => Err(error),
    }
}

/// What a command is sent for.
#[derive(Debug)]
enum Purpose {
    /// Nothing but the status of the response matters.
    Act,
    /// The response holds the XML of a channel.
    ChannelFps,
    /// The response describes a media file.
    Cinf { filename: String },
}

/// What a command is sent for, in a specification.
pub enum PurposeModel {
    Act,
    ChannelFps,
    Cinf { filename: Seq<char> },
}

impl View for Purpose {
    type V = PurposeModel;

    closed spec fn view(&self) -> PurposeModel {
        match *self {
            Purpose::Act => PurposeModel::Act,
            Purpose::ChannelFps => PurposeModel::ChannelFps,
            Purpose::Cinf { filename } => PurposeModel::Cinf { filename: filename@ },
        }
    }
}

/// What an exchange that succeeded has brought.
#[derive(Debug)]
pub enum Reply {
    Done,
    Fps(Float32),
    /// A media file, and how many files matched the request besides it.
    Media { info: MediaInfo, extra: u32 },
}

/// What an exchange has brought, in a specification.
pub enum ReplyModel {
    Done,
    Fps(Value),
    Media { info: InfoModel, extra: u32 },
}

impl View for Reply {
    type V = ReplyModel;

    open spec fn view(&self) -> ReplyModel {
        match *self {
            Reply::Done => ReplyModel::Done,
            Reply::Fps(fps) => ReplyModel::Fps(fps@),
            Reply::Media { info, extra } => ReplyModel::Media { info: info@, extra },
        }
    }
}

/// The outcome of an exchange.
pub open spec fn outcome(result: Result<Reply, AmcpError>) -> Result<ReplyModel, AmcpFault> {
    match result {
        Ok(reply) => Ok(reply@),
        Err(error) => Err(error@),
    }
}

/// How far an exchange with the server has come.
#[derive(Debug)]
enum Phase {
    /// No exchange was begun.
    Idle,
    /// The command is to be sent and its status line read.
    Sending { purpose: Purpose, command: String, retried: bool },
    /// A new connection is to be made before the command is sent again.
    Reconnecting { purpose: Purpose, command: String, cause: AmcpError },
    /// A line of the XML of a channel is to be read.
    ReadingChannel { xml: String },
    /// The first line on a media file is to be read.
    ReadingFirst { filename: String, more: bool },
    /// A further line on a media file is to be read.
    ReadingMore { filename: String, first: String, extra: u32 },
    /// The exchange is over.
    Finished { result: Result<Reply, AmcpError> },
}

/// How far an exchange has come, in a specification.
pub enum PhaseModel {
    Idle,
    Sending { purpose: PurposeModel, command: Seq<char>, retried: bool },
    Reconnecting { purpose: PurposeModel, command: Seq<char>, cause: AmcpFault },
    ReadingChannel { xml: Seq<char> },
    ReadingFirst { filename: Seq<char>, more: bool },
    ReadingMore { filename: Seq<char>, first: Seq<char>, extra: u32 },
    Finished { result: Result<ReplyModel, AmcpFault> },
}

impl View for Phase {
    type V = PhaseModel;

    closed spec fn view(&self) -> PhaseModel {
        match *self {
            Phase::Idle => PhaseModel::Idle,
            Phase::Sending { purpose, command, retried } => PhaseModel::Sending {
                purpose: purpose@,
                command: command@,
                retried,
            },
            Phase::Reconnecting { purpose, command, cause } => PhaseModel::Reconnecting {
                purpose: purpose@,
                command: command@,
                cause: cause@,
            },
            Phase::ReadingChannel { xml } => PhaseModel::ReadingChannel { xml: xml@ },
            Phase::ReadingFirst { filename, more } => PhaseModel::ReadingFirst {
                filename: filename@,
                more,
            },
            Phase::ReadingMore { filename, first, extra } => PhaseModel::ReadingMore {
                filename: filename@,
                first: first@,
                extra,
            },
            Phase::Finished { result } => PhaseModel::Finished { result: outcome(result) },
        }
    }
}

/// What came of the last action.
#[derive(Debug)]
pub enum AmcpEvent {
    /// The command was sent, and this status line came back.
    Status(String),
    /// The command could not be sent, or no status line came back.
    SendFailed(AmcpError),
    Connected,
    ConnectFailed(AmcpError),
    Line(String),
    ReadFailed(AmcpError),
}

/// What came of an action, in a specification.
pub enum EventModel {
    Status(Seq<char>),
    SendFailed(AmcpFault),
    Connected,
    ConnectFailed(AmcpFault),
    Line(Seq<char>),
    ReadFailed(AmcpFault),
}

impl View for AmcpEvent {
    type V = EventModel;

    open spec fn view(&self) -> EventModel {
        match *self {
            AmcpEvent::Status(line) => EventModel::Status(line@),
            AmcpEvent::SendFailed(error) => EventModel::SendFailed(error@),
            AmcpEvent::Connected => EventModel::Connected,
            AmcpEvent::ConnectFailed(error) => EventModel::ConnectFailed(error@),
            AmcpEvent::Line(line) => EventModel::Line(line@),
            AmcpEvent::ReadFailed(error) => EventModel::ReadFailed(error@),
        }
    }
}

/// What is to be done next.
#[derive(Debug)]
pub enum AmcpAction {
    /// Send this text, then read a status line.
    Send(String),
    /// Make a new connection.
    Reconnect,
    /// Read a line.
    ReadLine,
    /// Nothing: no exchange is under way.
    Rest,
}

/// What is to be done, in a specification.
pub enum ActionModel {
    Send(Seq<char>),
    Reconnect,
    ReadLine,
    Rest,
}

impl View for AmcpAction {
    type V = ActionModel;

    open spec fn view(&self) -> ActionModel {
        match *self {
            AmcpAction::Send(text) => ActionModel::Send(text@),
            AmcpAction::Reconnect => ActionModel::Reconnect,
            AmcpAction::ReadLine => ActionModel::ReadLine,
            AmcpAction::Rest => ActionModel::Rest,
        }
    }
}

/// What is to be done in a phase. A command is sent as a line that ends in CR and LF.
pub open spec fn action_in(phase: PhaseModel) -> ActionModel {
    match phase {
        PhaseModel::Sending { command, .. } => ActionModel::Send(command + "\r\n"@),
        PhaseModel::Reconnecting { .. } => ActionModel::Reconnect,
        PhaseModel::ReadingChannel { .. } => ActionModel::ReadLine,
        PhaseModel::ReadingFirst { .. } => ActionModel::ReadLine,
        PhaseModel::ReadingMore { .. } => ActionModel::ReadLine,
        PhaseModel::Idle => ActionModel::Rest,
        PhaseModel::Finished { .. } => ActionModel::Rest,
    }
}

/// Whether a status line says that a command succeeded.
pub open spec fn is_success(status: Seq<char>) -> bool {
    status.len() > 0 && status[0] == '2'
}

/// A status line that says that any number of lines follows, the last of them empty.
pub open spec fn announces_list(status: Seq<char>) -> bool {
    status.len() >= 3 && status.take(3) == "200"@
}

/// The command succeeded.
pub open spec fn after_success(purpose: PurposeModel, status: Seq<char>) -> PhaseModel {
    match purpose {
        PurposeModel::Act => PhaseModel::Finished { result: Ok(ReplyModel::Done) },
        PurposeModel::ChannelFps => PhaseModel::ReadingChannel { xml: seq![] },
        PurposeModel::Cinf { filename } => PhaseModel::ReadingFirst {
            filename,
            more: announces_list(status),
        },
    }
}

/// The command failed: it is sent once more on a new connection, and then given up.
pub open spec fn after_failure(
    purpose: PurposeModel,
    command: Seq<char>,
    retried: bool,
    cause: AmcpFault,
) -> PhaseModel {
    if retried {
        PhaseModel::Finished { result: Err(cause) }
    } else {
        PhaseModel::Reconnecting { purpose, command, cause }
    }
}

/// The XML of a channel ends with its closing tag or with a line that holds nothing.
pub open spec fn ends_channel(line: Seq<char>) -> bool {
    trim(line).len() == 0 || contains(line, "</channel>"@)
}

/// What the XML of a channel gives.
pub open spec fn channel_outcome(xml: Seq<char>) -> Result<ReplyModel, AmcpFault> {
    match channel_rate(xml) {
        Some(fps) => Ok(ReplyModel::Fps(fps)),
        None => Err(AmcpFault::Framerate),
    }
}

/// What the first line on a media file gives.
pub open spec fn cinf_outcome(line: Seq<char>, filename: Seq<char>, extra: u32) -> Result<
    ReplyModel,
    AmcpFault,
> {
    match cinf_response(line, filename) {
        Ok(info) => Ok(ReplyModel::Media { info, extra }),
        Err(fault) => Err(AmcpFault::Cinf(fault)),
    }
}

/// The phase that an event leads to. An event that does not answer the action of a phase
/// changes nothing.
pub open spec fn after_event(phase: PhaseModel, event: EventModel) -> PhaseModel {
    match (phase, event) {
        (PhaseModel::Sending { purpose, command, retried }, EventModel::Status(status)) =>
            if is_success(status) {
                after_success(purpose, status)
            } else {
                after_failure(
                    purpose,
                    command,
                    retried,
                    AmcpFault::Refused { response: trim(status) },
                )
            },
        (PhaseModel::Sending { purpose, command, retried }, EventModel::SendFailed(cause)) =>
            after_failure(purpose, command, retried, cause),
        (PhaseModel::Reconnecting { purpose, command, .. }, EventModel::Connected) =>
            PhaseModel::Sending { purpose, command, retried: true },
        (PhaseModel::Reconnecting { .. }, EventModel::ConnectFailed(cause)) =>
            PhaseModel::Finished { result: Err(cause) },
        (PhaseModel::ReadingChannel { xml }, EventModel::Line(line)) => if ends_channel(line) {
            PhaseModel::Finished { result: channel_outcome(xml + line) }
        } else {
            PhaseModel::ReadingChannel { xml: xml + line }
        },
        (PhaseModel::ReadingFirst { filename, more }, EventModel::Line(line)) => if more {
            PhaseModel::ReadingMore { filename, first: line, extra: 0 }
        } else {
            PhaseModel::Finished { result: cinf_outcome(line, filename, 0) }
        },
        (PhaseModel::ReadingMore { filename, first, extra }, EventModel::Line(line)) =>
            if trim(line).len() == 0 {
                PhaseModel::Finished { result: cinf_outcome(first, filename, extra) }
            } else {
                PhaseModel::ReadingMore {
                    filename,
                    first,
                    extra: if extra == u32::MAX {
                        extra
                    } else {
                        (extra + 1) as u32
                    },
                }
            },
        (PhaseModel::ReadingChannel { .. }, EventModel::ReadFailed(cause)) =>
            PhaseModel::Finished { result: Err(cause) },
        (PhaseModel::ReadingFirst { .. }, EventModel::ReadFailed(cause)) =>
            PhaseModel::Finished { result: Err(cause) },
        (PhaseModel::ReadingMore { .. }, EventModel::ReadFailed(cause)) =>
            PhaseModel::Finished { result: Err(cause) },
        _ => phase,
    }
}

/// The command that plays a file on a layer.
pub open spec fn play_command(
    channel: u16,
    layer: u16,
    file: Seq<char>,
    seek_frame: Option<u32>,
) -> Seq<char> {
    let seek = match seek_frame {
        Some(frame) => " SEEK "@ + decimal(frame as nat),
        None => seq![],
    };
    "PLAY "@ + decimal(channel as nat) + "-"@ + decimal(layer as nat) + " \""@ + file + "\""@
        + seek
}

/// The command that pauses a layer.
pub open spec fn pause_command(channel: u16, layer: u16) -> Seq<char> {
    "PAUSE "@ + decimal(channel as nat) + "-"@ + decimal(layer as nat)
}

/// The command that stops a layer.
pub open spec fn stop_command(channel: u16, layer: u16) -> Seq<char> {
    "STOP "@ + decimal(channel as nat) + "-"@ + decimal(layer as nat)
}

/// The command that asks for the XML of a channel.
pub open spec fn info_command(channel: u16) -> Seq<char> {
    "INFO "@ + decimal(channel as nat)
}

/// The command that asks for a media file.
pub open spec fn cinf_command(filename: Seq<char>) -> Seq<char> {
    "CINF \""@ + filename + "\""@
}

/// An exchange that was begun.
pub open spec fn begun(purpose: PurposeModel, command: Seq<char>) -> PhaseModel {
    PhaseModel::Sending { purpose, command, retried: false }
}

/// AMCP client for communicating with CasparCG Server.
///
/// The client decides what is sent and read. Whoever holds the connection performs each
/// [`action`](Self::action) and reports what came of it to [`handle`](Self::handle), until the
/// outcome can be [taken](Self::take_outcome).
///
/// If the TCP connection drops, commands will automatically reconnect
/// and retry once before returning an error.
#[derive(Debug)]
pub struct AmcpClient {
    phase: Phase,
}

impl View for AmcpClient {
    type V = PhaseModel;

    closed spec fn view(&self) -> PhaseModel {
        self.phase@
    }
}

impl Phase {
    /// The phase after a command succeeded.
    fn succeeded(purpose: Purpose, status: &Vec<char>) -> (phase: Phase)
        ensures
            phase@ == after_success(purpose@, status@),
    {
        match purpose {
            Purpose::Act => Phase::Finished { result: Ok(Reply::Done) },
            Purpose::ChannelFps => Phase::ReadingChannel { xml: String::new() },
            Purpose::Cinf { filename } => {
                proof {
                    reveal_strlit("200");
                }
                let more: bool = stands_at(status, 0, &chars_of("200"));
                proof {
                    if status@.len() >= 3 {
                        assert(status@.take(3) =~= status@.subrange(0, 3));
                    }
                }
                Phase::ReadingFirst { filename, more }
            },
        }
    }

    /// The phase after a command failed.
    fn failed(purpose: Purpose, command: String, retried: bool, cause: AmcpError) -> (phase: Phase)
        ensures
            phase@ == after_failure(purpose@, command@, retried, cause@),
    {
        if retried {
            Phase::Finished { result: Err(cause) }
        } else {
            Phase::Reconnecting { purpose, command, cause }
        }
    }

    /// The end of an exchange on a channel.
    fn channel_read(xml: &String) -> (phase: Phase)
        ensures
            phase@ == (PhaseModel::Finished { result: channel_outcome(xml@) }),
    {
        match AmcpClient::parse_channel_fps(xml.as_str()) {
            Ok(fps) => Phase::Finished { result: Ok(Reply::Fps(fps)) },
            Err(error) => Phase::Finished { result: Err(error) },
        }
    }

    /// The end of an exchange on a media file.
    fn cinf_read(line: &String, filename: &String, extra: u32) -> (phase: Phase)
        ensures
            phase@ == (PhaseModel::Finished { result: cinf_outcome(line@, filename@, extra) }),
    {
        match AmcpClient::parse_cinf_response(line.as_str(), filename.as_str()) {
            Ok(info) => Phase::Finished { result: Ok(Reply::Media { info, extra }) },
            Err(error) => Phase::Finished { result: Err(AmcpError::Cinf(error)) },
        }
    }

    /// The phase that an event leads to.
    fn next(self, event: AmcpEvent) -> (phase: Phase)
        ensures
            phase@ == after_event(self@, event@),
    {
        match (self, event) {
            (Phase::Sending { purpose, command, retried }, AmcpEvent::Status(status)) => {
                let chars = chars_of(status.as_str());
                if chars.len() > 0 && chars[0] == '2' {
                    Phase::succeeded(purpose, &chars)
                } else {
                    let response = string_of(&trimmed(&chars));
                    Phase::failed(purpose, command, retried, AmcpError::Refused { response })
                }
            },
            (Phase::Sending { purpose, command, retried }, AmcpEvent::SendFailed(cause)) => {
                Phase::failed(purpose, command, retried, cause)
            },
            (Phase::Reconnecting { purpose, command, .. }, AmcpEvent::Connected) => {
                Phase::Sending { purpose, command, retried: true }
            },
            (Phase::Reconnecting { .. }, AmcpEvent::ConnectFailed(cause)) => {
                Phase::Finished { result: Err(cause) }
            },
            (Phase::ReadingChannel { xml }, AmcpEvent::Line(line)) => {
                let chars = chars_of(line.as_str());
                let blank: bool = trimmed(&chars).len() == 0;
                let closed: bool = find_pattern(&chars, &chars_of("</channel>"), 0).is_some();
                let xml = xml.concat(line.as_str());
                if blank || closed {
                    Phase::channel_read(&xml)
                } else {
                    Phase::ReadingChannel { xml }
                }
            },
            (Phase::ReadingFirst { filename, more }, AmcpEvent::Line(line)) => {
                if more {
                    Phase::ReadingMore { filename, first: line, extra: 0 }
                } else {
                    Phase::cinf_read(&line, &filename, 0)
                }
            },
            (Phase::ReadingMore { filename, first, extra }, AmcpEvent::Line(line)) => {
                if trimmed(&chars_of(line.as_str())).len() == 0 {
                    Phase::cinf_read(&first, &filename, extra)
                } else {
                    Phase::ReadingMore { filename, first, extra: extra.saturating_add(1) }
                }
            },
            (Phase::ReadingChannel { .. }, AmcpEvent::ReadFailed(cause)) => {
                Phase::Finished { result: Err(cause) }
            },
            (Phase::ReadingFirst { .. }, AmcpEvent::ReadFailed(cause)) => {
                Phase::Finished { result: Err(cause) }
            },
            (Phase::ReadingMore { .. }, AmcpEvent::ReadFailed(cause)) => {
                Phase::Finished { result: Err(cause) }
            },
            (phase, _) => phase,
        }
    }
}

impl AmcpClient {
    /// A client with no exchange under way.
    pub fn new() -> (client: AmcpClient)
        ensures
            client@ == PhaseModel::Idle,
    {
        AmcpClient { phase: Phase::Idle }
    }

    /// Begins to send a command and wait for its response.
    /// On failure, reconnects once and retries before the exchange ends in an error.
    fn send(&mut self, purpose: Purpose, command: String)
        ensures
            final(self)@ == begun(purpose@, command@),
    {
        self.phase = Phase::Sending { purpose, command, retried: false };
    }

    /// Begin a batch transaction.
    ///
    /// All subsequent commands are queued until [`end_batch`](Self::end_batch)
    /// is called, at which point they execute atomically on the server.
    pub fn begin_batch(&mut self)
        ensures
            final(self)@ == begun(PurposeModel::Act, "BEGIN"@),
    {
        self.send(Purpose::Act, String::from_str("BEGIN"))
    }

    /// Commit a batch transaction, executing all queued commands atomically.
    pub fn end_batch(&mut self)
        ensures
            final(self)@ == begun(PurposeModel::Act, "COMMIT"@),
    {
        self.send(Purpose::Act, String::from_str("COMMIT"))
    }

    /// Discard a batch transaction without executing.
    pub fn discard_batch(&mut self)
        ensures
            final(self)@ == begun(PurposeModel::Act, "DISCARD"@),
    {
        self.send(Purpose::Act, String::from_str("DISCARD"))
    }

    /// Play a file on a layer, optionally seeking to a frame
    ///
    /// # Arguments
    ///
    /// * `channel` - CasparCG channel number
    /// * `layer` - Layer number
    /// * `file` - File path to play
    /// * `seek_frame` - Optional frame to seek to on play
    pub fn play(&mut self, channel: u16, layer: u16, file: &str, seek_frame: Option<u32>)
        ensures
            final(self)@ == begun(
                PurposeModel::Act,
                play_command(channel, layer, file@, seek_frame),
            ),
    {
        let seek: String = match seek_frame {
            Some(frame) => {
                String::from_str(" SEEK ").concat(decimal_text(frame as u64).as_str())
            },
            None => String::new(),
        };
        let mut command = String::from_str("PLAY ");
        command.append(decimal_text(channel as u64).as_str());
        command.append("-");
        command.append(decimal_text(layer as u64).as_str());
        command.append(" \"");
        command.append(file);
        command.append("\"");
        command.append(seek.as_str());
        self.send(Purpose::Act, command)
    }

    /// Pause playback on a layer
    ///
    /// # Arguments
    ///
    /// * `channel` - CasparCG channel number
    /// * `layer` - Layer number
    pub fn pause(&mut self, channel: u16, layer: u16)
        ensures
            final(self)@ == begun(PurposeModel::Act, pause_command(channel, layer)),
    {
        let mut command = String::from_str("PAUSE ");
        command.append(decimal_text(channel as u64).as_str());
        command.append("-");
        command.append(decimal_text(layer as u64).as_str());
        self.send(Purpose::Act, command)
    }

    /// Stop and clear a layer
    ///
    /// # Arguments
    ///
    /// * `channel` - CasparCG channel number
    /// * `layer` - Layer number
    pub fn stop(&mut self, channel: u16, layer: u16)
        ensures
            final(self)@ == begun(PurposeModel::Act, stop_command(channel, layer)),
    {
        let mut command = String::from_str("STOP ");
        command.append(decimal_text(channel as u64).as_str());
        command.append("-");
        command.append(decimal_text(layer as u64).as_str());
        self.send(Purpose::Act, command)
    }

    /// Get the output frame rate of a CasparCG channel.
    ///
    /// Sends `INFO [channel]` and parses the `<framerate>` elements from the XML response.
    pub fn channel_fps(&mut self, channel: u16)
        ensures
            final(self)@ == begun(PurposeModel::ChannelFps, info_command(channel)),
    {
        let command = String::from_str("INFO ").concat(decimal_text(channel as u64).as_str());
        self.send(Purpose::ChannelFps, command)
    }

    /// Get information about a media file
    ///
    /// # Arguments
    ///
    /// * `filename` - File path to query
    pub fn cinf(&mut self, filename: &str)
        ensures
            final(self)@ == begun(
                PurposeModel::Cinf { filename: filename@ },
                cinf_command(filename@),
            ),
    {
        let command = String::from_str("CINF \"").concat(filename).concat("\"");
        self.send(Purpose::Cinf { filename: String::from_str(filename) }, command)
    }

    /// What is to be done next.
    pub fn action(&self) -> (action: AmcpAction)
        ensures
            action@ == action_in(self@),
    {
        match &self.phase {
            Phase::Sending { command, .. } => {
                AmcpAction::Send(command.clone().concat("\r\n"))
            },
            Phase::Reconnecting { .. } => AmcpAction::Reconnect,
            Phase::ReadingChannel { .. } => AmcpAction::ReadLine,
            Phase::ReadingFirst { .. } => AmcpAction::ReadLine,
            Phase::ReadingMore { .. } => AmcpAction::ReadLine,
            Phase::Idle => AmcpAction::Rest,
            Phase::Finished { .. } => AmcpAction::Rest,
        }
    }

    /// Why the command is to be sent again, while a new connection is to be made.
    pub fn retry_cause(&self) -> (cause: Option<&AmcpError>)
        ensures
            match cause {
                Some(error) => self@ matches PhaseModel::Reconnecting { cause, .. } && cause
                    == error@,
                None => !(self@ is Reconnecting),
            },
    {
        match &self.phase {
            Phase::Reconnecting { cause, .. } => Some(cause),
            _ => None,
        }
    }

    /// Takes note of what came of the last action.
    pub fn handle(&mut self, event: AmcpEvent)
        ensures
            final(self)@ == after_event(old(self)@, event@),
    {
        let mut phase = Phase::Idle;
        std::mem::swap(&mut phase, &mut self.phase);
        self.phase = phase.next(event);
    }

    /// The outcome of the exchange, where it is over. There is none to take after that.
    pub fn take_outcome(&mut self) -> (result: Option<Result<Reply, AmcpError>>)
        ensures
            match result {
                Some(result) => old(self)@ == (PhaseModel::Finished { result: outcome(result) })
                    && final(self)@ == PhaseModel::Idle,
                None => !(old(self)@ is Finished) && final(self)@ == old(self)@,
            },
    {
        let mut phase = Phase::Idle;
        std::mem::swap(&mut phase, &mut self.phase);
        match phase {
            Phase::Finished { result } => Some(result),
            phase => {
                self.phase = phase;
                None
            },
        }
    }

    /// Parse channel fps from `INFO [channel]` XML response.
    ///
    /// Expects two `<framerate>` elements representing numerator and denominator.
    pub fn parse_channel_fps(xml: &str) -> (fps: Result<Float32, AmcpError>)
        ensures
            match fps {
                Ok(value) => channel_rate(xml@) == Some(value@),
                Err(error) => channel_rate(xml@) is None && error@ == AmcpFault::Framerate,
            },
    {
        proof {
            reveal_strlit("<framerate>");
        }
        let fields = split_at_pattern(&chars_of(xml), &chars_of("<framerate>"));
        proof {
            assert(views(fields@).len() == fields@.len());
        }
        if fields.len() < 3 {
            return Err(AmcpError::Framerate);
        }
        proof {
            assert(views(fields@)[1] == fields@[1]@);
            assert(views(fields@)[2] == fields@[2]@);
        }
        let num = read_framerate_field(&fields[1]);
        let den = read_framerate_field(&fields[2]);
        match (num, den) {
            (Some(num), Some(den)) => {
                if den.is_zero() {
                    Err(AmcpError::Framerate)
                } else {
                    Ok(num.divided_by(&den))
                }
            },
            _ => Err(AmcpError::Framerate),
        }
    }

    /// Parse CINF response line into MediaInfo.
    pub fn parse_cinf_response(line: &str, filename: &str) -> (info: Result<MediaInfo, CinfError>)
        ensures
            match info {
                Ok(info) => cinf_response(line@, filename@) == Ok::<_, CinfFault>(info@),
                Err(error) => cinf_response(line@, filename@) == Err::<InfoModel, _>(error@),
            },
            cinf_fields(trim(line@)) matches Ok(fields) ==> fields.len() >= 5 && is_ascii_text(
                fields[0],
            ) ==> cinf_response(line@, filename@) == cinf_info(
                fields,
                fields[0].map_values(|c: char| ascii_upper(c)),
                filename@,
            ),
    {
        let line = trimmed(&chars_of(line));
        let fields = match read_cinf_fields(&line) {
            Ok(fields) => fields,
            Err(error) => {
                return Err(error);
            },
        };
        proof {
            assert(views(fields@).len() == fields@.len());
        }
        if fields.len() < 5 {
            return Err(CinfError::Fields { line: string_of(&line) });
        }
        proof {
            assert(views(fields@)[0] == fields@[0]@);
        }
        let upper = to_uppercase(&string_of(&fields[0]));
        read_cinf_info(&fields, upper, filename)
    }
}

/// Why a command failed on a connection, where the event says that it did.
pub open spec fn failure_of(event: EventModel) -> Option<AmcpFault> {
    match event {
        EventModel::Status(status) => if is_success(status) {
            None
        } else {
            Some(AmcpFault::Refused { response: trim(status) })
        },
        EventModel::SendFailed(cause) => Some(cause),
        _ => None,
    }
}

/// A command that fails is sent once more, word for word, on a new connection. Whether the second
/// try succeeds then goes by its own response alone, and a second failure ends the exchange with
/// the cause of that failure.
pub proof fn law_failed_command_is_sent_once_more(
    purpose: PurposeModel,
    command: Seq<char>,
    first: EventModel,
    second: EventModel,
)
    requires
        failure_of(first) is Some,
    ensures
        ({
            let start = begun(purpose, command);
            let failed = after_event(start, first);
            let again = after_event(failed, EventModel::Connected);
            &&& action_in(failed) == ActionModel::Reconnect
            &&& action_in(again) == action_in(start)
            &&& match failure_of(second) {
                Some(cause) => after_event(again, second) == (PhaseModel::Finished {
                    result: Err(cause),
                }),
                None => second is Status ==> after_event(again, second) == after_event(
                    start,
                    second,
                ),
            }
        }),
{
}

/// Where no new connection can be made, the exchange ends with that as its cause.
pub proof fn law_lost_connection_ends_the_exchange(
    purpose: PurposeModel,
    command: Seq<char>,
    first: EventModel,
    cause: AmcpFault,
)
    requires
        failure_of(first) is Some,
    ensures
        after_event(
            after_event(begun(purpose, command), first),
            EventModel::ConnectFailed(cause),
        ) == (PhaseModel::Finished { result: Err(cause) }),
{
}

/// A command that is only to act ends with the first status line that reports success.
pub proof fn law_success_ends_a_plain_command(command: Seq<char>, status: Seq<char>)
    requires
        is_success(status),
    ensures
        after_event(begun(PurposeModel::Act, command), EventModel::Status(status)) == (
        PhaseModel::Finished { result: Ok(ReplyModel::Done) }),
{
}

/// A command and what came of the actions that it led to, in turn.
pub struct ExchangeModel {
    pub purpose: PurposeModel,
    pub command: Seq<char>,
    pub events: Seq<EventModel>,
}

/// The texts that are sent from a phase on, up to the last of the events.
pub open spec fn texts_sent(phase: PhaseModel, events: Seq<EventModel>) -> Seq<Seq<char>>
    decreases events.len(),
{
    if events.len() == 0 {
        seq![]
    } else {
        let rest = texts_sent(after_event(phase, events[0]), events.drop_first());
        match action_in(phase) {
            ActionModel::Send(text) => seq![text] + rest,
            _ => rest,
        }
    }
}

/// The texts that are sent in a row of exchanges.
pub open spec fn texts_of(exchanges: Seq<ExchangeModel>) -> Seq<Seq<char>>
    decreases exchanges.len(),
{
    if exchanges.len() == 0 {
        seq![]
    } else {
        let last = exchanges.last();
        texts_of(exchanges.drop_last()) + texts_sent(
            begun(last.purpose, last.command),
            last.events,
        )
    }
}

/// The first answer to a command is a status line that reports success.
pub open spec fn succeeds(exchange: ExchangeModel) -> bool {
    exchange.events.len() > 0 && (exchange.events[0] matches EventModel::Status(status)
        && is_success(status))
}

proof fn lemma_nothing_sent(phase: PhaseModel, events: Seq<EventModel>)
    requires
        !(phase is Sending),
        !(phase is Reconnecting),
    ensures
        texts_sent(phase, events).len() == 0,
    decreases events.len(),
{
    if events.len() > 0 {
        lemma_nothing_sent(after_event(phase, events[0]), events.drop_first());
    }
}

proof fn lemma_sent_once(exchange: ExchangeModel)
    requires
        succeeds(exchange),
    ensures
        texts_sent(begun(exchange.purpose, exchange.command), exchange.events) == seq![
            exchange.command + "\r\n"@,
        ],
{
    let start = begun(exchange.purpose, exchange.command);
    let rest = exchange.events.drop_first();
    let after = after_event(start, exchange.events[0]);
    assert(!(after is Sending) && !(after is Reconnecting));
    lemma_nothing_sent(after, rest);
    assert(texts_sent(start, exchange.events) == seq![exchange.command + "\r\n"@] + texts_sent(
        after,
        rest,
    ));
}

/// The lines of a row of commands.
pub open spec fn lines_of(exchanges: Seq<ExchangeModel>) -> Seq<Seq<char>> {
    Seq::new(exchanges.len(), |i: int| exchanges[i].command + "\r\n"@)
}

proof fn lemma_last_line(exchanges: Seq<ExchangeModel>)
    requires
        exchanges.len() > 0,
    ensures
        lines_of(exchanges) == lines_of(exchanges.drop_last()) + seq![
            exchanges.last().command + "\r\n"@,
        ],
{
    let lines = lines_of(exchanges);
    let parts = lines_of(exchanges.drop_last()) + seq![exchanges.last().command + "\r\n"@];
    assert forall|i: int| 0 <= i < lines.len() implies lines[i] == parts[i] by {
        if i < lines.len() - 1 {
            assert(exchanges.drop_last()[i] == exchanges[i]);
        }
    }
    assert(lines =~= parts);
}

/// Commands that succeed are each sent once, as a line of its own, in their order, and nothing
/// else is sent.
pub proof fn law_commands_are_sent_in_order(exchanges: Seq<ExchangeModel>)
    requires
        forall|i: int| 0 <= i < exchanges.len() ==> succeeds(#[trigger] exchanges[i]),
    ensures
        texts_of(exchanges) == lines_of(exchanges),
    decreases exchanges.len(),
{
    if exchanges.len() == 0 {
        assert(texts_of(exchanges) =~= lines_of(exchanges));
    } else {
        let before = exchanges.drop_last();
        assert forall|i: int| 0 <= i < before.len() implies succeeds(#[trigger] before[i]) by {
            assert(before[i] == exchanges[i]);
        }
        law_commands_are_sent_in_order(before);
        assert(succeeds(exchanges[exchanges.len() - 1]));
        lemma_sent_once(exchanges.last());
        lemma_last_line(exchanges);
    }
}

/// A batch: it is begun, its commands follow, and it is committed or discarded. `first` and `last`
/// are what came of the two commands around it.
pub open spec fn batch(
    first: Seq<EventModel>,
    exchanges: Seq<ExchangeModel>,
    commit: bool,
    last: Seq<EventModel>,
) -> Seq<ExchangeModel> {
    let begin = ExchangeModel { purpose: PurposeModel::Act, command: "BEGIN"@, events: first };
    let end = ExchangeModel {
        purpose: PurposeModel::Act,
        command: if commit {
            "COMMIT"@
        } else {
            "DISCARD"@
        },
        events: last,
    };
    seq![begin] + exchanges + seq![end]
}

/// A batch in which every command succeeds sends `BEGIN`, the commands in their order, and then
/// `COMMIT` or `DISCARD`, and nothing else.
pub proof fn law_batch_is_sent_in_order(
    first: Seq<EventModel>,
    exchanges: Seq<ExchangeModel>,
    commit: bool,
    last: Seq<EventModel>,
)
    requires
        forall|i: int|
            0 <= i < exchanges.len() + 2 ==> succeeds(
                #[trigger] batch(first, exchanges, commit, last)[i],
            ),
    ensures
        texts_of(batch(first, exchanges, commit, last)) == seq!["BEGIN\r\n"@] + lines_of(
            exchanges,
        ) + seq![
            if commit {
                "COMMIT\r\n"@
            } else {
                "DISCARD\r\n"@
            },
        ],
{
    let all = batch(first, exchanges, commit, last);
    law_commands_are_sent_in_order(all);
    let begin = all[0];
    let end = all[all.len() - 1];
    lemma_lines_join(seq![begin], exchanges);
    lemma_lines_join(seq![begin] + exchanges, seq![end]);
    assert(all == seq![begin] + exchanges + seq![end]);
    assert(begin.command == "BEGIN"@);
    assert(end.command == if commit {
        "COMMIT"@
    } else {
        "DISCARD"@
    });
    lemma_line_ends();
    lemma_one_line(begin);
    lemma_one_line(end);
}

proof fn lemma_lines_join(first: Seq<ExchangeModel>, second: Seq<ExchangeModel>)
    ensures
        lines_of(first + second) == lines_of(first) + lines_of(second),
{
    let lines = lines_of(first + second);
    let parts = lines_of(first) + lines_of(second);
    assert forall|i: int| 0 <= i < lines.len() implies lines[i] == parts[i] by {
        if i < first.len() {
            assert((first + second)[i] == first[i]);
        } else {
            assert((first + second)[i] == second[i - first.len()]);
        }
    }
    assert(lines =~= parts);
}

proof fn lemma_one_line(exchange: ExchangeModel)
    ensures
        lines_of(seq![exchange]) == seq![exchange.command + "\r\n"@],
{
    assert(lines_of(seq![exchange])[0] == exchange.command + "\r\n"@);
    assert(lines_of(seq![exchange]) =~= seq![exchange.command + "\r\n"@]);
}

proof fn lemma_line_ends()
    ensures
        "BEGIN"@ + "\r\n"@ == "BEGIN\r\n"@,
        "COMMIT"@ + "\r\n"@ == "COMMIT\r\n"@,
        "DISCARD"@ + "\r\n"@ == "DISCARD\r\n"@,
{
    reveal_strlit("\r\n");
    reveal_strlit("BEGIN");
    reveal_strlit("COMMIT");
    reveal_strlit("DISCARD");
    reveal_strlit("BEGIN\r\n");
    reveal_strlit("COMMIT\r\n");
    reveal_strlit("DISCARD\r\n");
    assert("BEGIN"@ + "\r\n"@ =~= "BEGIN\r\n"@);
    assert("COMMIT"@ + "\r\n"@ =~= "COMMIT\r\n"@);
    assert("DISCARD"@ + "\r\n"@ =~= "DISCARD\r\n"@);
}

/// An exchange that is over stays as it is, and none begins by itself.
pub proof fn law_rest_is_kept(phase: PhaseModel, event: EventModel)
    requires
        action_in(phase) == ActionModel::Rest,
    ensures
        after_event(phase, event) == phase,
{
}

/// The phase after a row of lines.
pub open spec fn after_lines(phase: PhaseModel, lines: Seq<Seq<char>>) -> PhaseModel
    decreases lines.len(),
{
    if lines.len() == 0 {
        phase
    } else {
        after_event(after_lines(phase, lines.drop_last()), EventModel::Line(lines.last()))
    }
}

/// The text of a row of lines.
pub open spec fn joined(lines: Seq<Seq<char>>) -> Seq<char>
    decreases lines.len(),
{
    if lines.len() == 0 {
        seq![]
    } else {
        joined(lines.drop_last()) + lines.last()
    }
}

proof fn lemma_channel_lines(lines: Seq<Seq<char>>)
    requires
        forall|i: int| 0 <= i < lines.len() ==> !ends_channel(#[trigger] lines[i]),
    ensures
        after_lines(PhaseModel::ReadingChannel { xml: seq![] }, lines) == (
        PhaseModel::ReadingChannel { xml: joined(lines) }),
    decreases lines.len(),
{
    if lines.len() > 0 {
        assert forall|i: int| 0 <= i < lines.drop_last().len() implies !ends_channel(
            #[trigger] lines.drop_last()[i],
        ) by {
            assert(lines.drop_last()[i] == lines[i]);
        }
        lemma_channel_lines(lines.drop_last());
        assert(!ends_channel(lines[lines.len() - 1]));
    }
}

/// The frame rate of a channel is read from all lines up to the first one that ends the XML, that
/// line included.
pub proof fn law_channel_is_read_to_its_end(lines: Seq<Seq<char>>, end: Seq<char>)
    requires
        forall|i: int| 0 <= i < lines.len() ==> !ends_channel(#[trigger] lines[i]),
        ends_channel(end),
    ensures
        after_lines(PhaseModel::ReadingChannel { xml: seq![] }, lines.push(end)) == (
        PhaseModel::Finished { result: channel_outcome(joined(lines) + end) }),
{
    lemma_channel_lines(lines);
    assert(lines.push(end).drop_last() =~= lines);
}

proof fn lemma_more_lines(filename: Seq<char>, first: Seq<char>, lines: Seq<Seq<char>>)
    requires
        forall|i: int| 0 <= i < lines.len() ==> trim(#[trigger] lines[i]).len() > 0,
    ensures
        after_lines(PhaseModel::ReadingMore { filename, first, extra: 0 }, lines) == (
        PhaseModel::ReadingMore {
            filename,
            first,
            extra: if lines.len() > u32::MAX {
                u32::MAX
            } else {
                lines.len() as u32
            },
        }),
    decreases lines.len(),
{
    if lines.len() > 0 {
        assert forall|i: int| 0 <= i < lines.drop_last().len() implies trim(
            #[trigger] lines.drop_last()[i],
        ).len() > 0 by {
            assert(lines.drop_last()[i] == lines[i]);
        }
        lemma_more_lines(filename, first, lines.drop_last());
        assert(trim(lines[lines.len() - 1]).len() > 0);
    }
}

/// Of a list of media files the first one is used, whatever follows it up to the empty line that
/// ends the list, and a single media file is used as it stands.
pub proof fn law_first_match_is_used(
    filename: Seq<char>,
    status: Seq<char>,
    first: Seq<char>,
    others: Seq<Seq<char>>,
    end: Seq<char>,
)
    requires
        is_success(status),
        forall|i: int| 0 <= i < others.len() ==> trim(#[trigger] others[i]).len() > 0,
        trim(end).len() == 0,
    ensures
        ({
            let asked = after_event(
                begun(PurposeModel::Cinf { filename }, cinf_command(filename)),
                EventModel::Status(status),
            );
            let told = after_event(asked, EventModel::Line(first));
            let extra = if others.len() > u32::MAX {
                u32::MAX
            } else {
                others.len() as u32
            };
            &&& announces_list(status) ==> after_lines(told, others.push(end)) == (
            PhaseModel::Finished { result: cinf_outcome(first, filename, extra) })
            &&& !announces_list(status) ==> told == (PhaseModel::Finished {
                result: cinf_outcome(first, filename, 0),
            })
        }),
{
    lemma_more_lines(filename, first, others);
    assert(others.push(end).drop_last() =~= others);
}

/// What is told of a media file bears the name that was asked for.
pub proof fn law_media_bears_the_requested_name(line: Seq<char>, filename: Seq<char>)
    ensures
        cinf_response(line, filename) matches Ok(info) ==> info.filename == filename,
{
}

/// A line of a CINF response: a filename in quotes, and the fields after it.
pub open spec fn cinf_line(name: Seq<char>, fields: Seq<Seq<char>>) -> Seq<char> {
    "\""@ + name + "\" "@ + spaced(fields)
}

/// The fields of a CINF response are read whatever the filename is, spaces in it included, as
/// long as it holds no quote.
pub proof fn law_cinf_line_is_read(name: Seq<char>, fields: Seq<Seq<char>>, end: Seq<char>)
    requires
        forall|k: int| 0 <= k < name.len() ==> #[trigger] name[k] != '"',
        fields.len() > 0,
        forall|k: int| 0 <= k < fields.len() ==> is_one_word(#[trigger] fields[k]),
        forall|k: int| 0 <= k < end.len() ==> is_space(#[trigger] end[k]),
    ensures
        cinf_fields(trim(cinf_line(name, fields) + end)) == Ok::<_, CinfFault>(fields),
{
    reveal_strlit("\"");
    reveal_strlit("\" ");
    let line = cinf_line(name, fields);
    let quote: int = name.len() as int + 1;
    lemma_spaced_end(fields);
    assert(line.last() == spaced(fields).last());
    lemma_trim(line, end);
    assert forall|k: int| 1 <= k < quote implies line[k] != '"' by {
        assert(line[k] == name[k - 1]);
    }
    lemma_char_index(line, '"', 1, quote);
    assert(line.skip(quote + 2) =~= spaced(fields));
    let rest = line.skip(quote + 2);
    assert(rest.skip(0) =~= rest);
    lemma_words_of_spaced(rest, 0, fields);
}

/// A frame rate that is given as two numbers with a slash between them is the second divided by
/// the first, and one that is given as one number is that number.
pub proof fn law_cinf_rate_is_read(first: Seq<char>, second: Seq<char>)
    requires
        forall|k: int| 0 <= k < first.len() ==> #[trigger] first[k] != '/',
    ensures
        cinf_rate(first + seq!['/'] + second) == match (number(first), number(second)) {
            (Some(a), Some(b)) => Ok(quotient(single(), b, a)),
            (None, _) => Err(CinfFault::Numerator { field: first + seq!['/'] + second }),
            (_, None) => Err(CinfFault::Denominator { field: first + seq!['/'] + second }),
        },
        cinf_rate(first) == match number(first) {
            Some(rate) => Ok(rate),
            None => Err(CinfFault::FrameRate { field: first }),
        },
{
    let field = first + seq!['/'] + second;
    let slash = first.len() as int;
    assert forall|k: int| 0 <= k < slash implies field[k] != '/' by {
        assert(field[k] == first[k]);
    }
    lemma_char_index(field, '/', 0, slash);
    lemma_char_index(first, '/', 0, slash);
    assert(field.take(slash) =~= first);
    assert(field.skip(slash + 1) =~= second);
}

/// A response on a media file is read field by field: after the filename in quotes stand the media
/// type, the size, the time of the last change, the number of frames and the frame rate. Further
/// fields play no part, nor does the filename that is given.
pub proof fn law_cinf_response_is_read(
    name: Seq<char>,
    kind: Seq<char>,
    size: Seq<char>,
    time: Seq<char>,
    frames: u32,
    rate: Seq<char>,
    more: Seq<Seq<char>>,
    end: Seq<char>,
    filename: Seq<char>,
)
    requires
        forall|k: int| 0 <= k < name.len() ==> #[trigger] name[k] != '"',
        is_one_word(kind),
        is_one_word(size),
        is_one_word(time),
        is_one_word(rate),
        forall|k: int| 0 <= k < more.len() ==> is_one_word(#[trigger] more[k]),
        forall|k: int| 0 <= k < end.len() ==> is_space(#[trigger] end[k]),
    ensures
        ({
            let fields = seq![kind, size, time, decimal(frames as nat), rate] + more;
            cinf_response(cinf_line(name, fields) + end, filename) == match (
                media_type_of(uppercase(kind)),
                cinf_rate(rate),
            ) {
                (None, _) => Err(CinfFault::MediaType { name: uppercase(kind) }),
                (_, Err(fault)) => Err(fault),
                (Some(media_type), Ok(frame_rate)) => Ok(
                    InfoModel { filename, media_type, frame_count: frames, frame_rate },
                ),
            }
        }),
{
    let fields = seq![kind, size, time, decimal(frames as nat), rate] + more;
    lemma_decimal_digits(frames as nat);
    assert(is_one_word(decimal(frames as nat))) by {
        assert forall|i: int| 0 <= i < decimal(frames as nat).len() implies !is_space(
            #[trigger] decimal(frames as nat)[i],
        ) by {
            assert(is_digit(decimal(frames as nat)[i]));
        }
    }
    assert forall|k: int| 0 <= k < fields.len() implies is_one_word(#[trigger] fields[k]) by {
        if k >= 5 {
            assert(fields[k] == more[k - 5]);
        }
    }
    law_cinf_line_is_read(name, fields, end);
    law_decimal_is_read_back(frames as nat, u32::MAX as nat);
    assert(fields[0] == kind && fields[3] == decimal(frames as nat) && fields[4] == rate);
}

/// A response on a media file with fewer than five fields after the filename is refused.
pub proof fn law_short_cinf_response_is_refused(
    name: Seq<char>,
    fields: Seq<Seq<char>>,
    end: Seq<char>,
    filename: Seq<char>,
)
    requires
        forall|k: int| 0 <= k < name.len() ==> #[trigger] name[k] != '"',
        0 < fields.len() < 5,
        forall|k: int| 0 <= k < fields.len() ==> is_one_word(#[trigger] fields[k]),
        forall|k: int| 0 <= k < end.len() ==> is_space(#[trigger] end[k]),
    ensures
        cinf_response(cinf_line(name, fields) + end, filename) matches Err(
            CinfFault::Fields { .. },
        ),
{
    law_cinf_line_is_read(name, fields, end);
}

/// The media types are those of the three names, and no other name has one.
pub proof fn law_media_types_have_their_names(name: Seq<char>)
    ensures
        media_type_of(name) == Some(MediaType::Movie) <==> name == "MOVIE"@,
        media_type_of(name) == Some(MediaType::Still) <==> name == "STILL"@,
        media_type_of(name) == Some(MediaType::Audio) <==> name == "AUDIO"@,
{
    reveal_strlit("MOVIE");
    reveal_strlit("STILL");
    reveal_strlit("AUDIO");
    assert("MOVIE"@[0] == 'M' && "STILL"@[0] == 'S' && "AUDIO"@[0] == 'A');
}

proof fn lemma_framerate_field(x: Seq<char>, v: Seq<char>)
    requires
        forall|k: int| 0 <= k < x.len() ==> #[trigger] x[k] != '<',
    ensures
        framerate_field(x + "</framerate>"@ + v) == number(trim(x)),
{
    reveal_strlit("</framerate>");
    let tag = "</framerate>"@;
    let s = x + tag + v;
    let at = x.len() as int;
    assert(s.subrange(at, at + tag.len()) =~= tag);
    assert forall|k: int| 0 <= k < at implies #[trigger] s.subrange(k, k + tag.len()) != tag by {
        assert(s.subrange(k, k + tag.len())[0] == x[k]);
        assert(tag[0] == '<');
    }
    lemma_pattern_first(s, tag, 0, at);
    assert(s.subrange(0, at) =~= x);
}

proof fn lemma_not_before(s: Seq<char>, text: Seq<char>, from: int, k: int)
    requires
        0 <= from <= k < from + text.len(),
        from + text.len() < s.len(),
        s.subrange(from, from + text.len()) == text,
        s[from + text.len()] == '<',
        !contains(text, "<framerate>"@),
        k + 11 <= s.len(),
    ensures
        s.subrange(k, k + 11) != "<framerate>"@,
{
    reveal_strlit("<framerate>");
    let tag = "<framerate>"@;
    let end = from + text.len();
    if k + 11 <= end {
        lemma_pattern_missing(text, tag, 0, k - from);
        assert(text.subrange(k - from, k - from + 11) =~= s.subrange(k, k + 11));
    } else {
        assert(s.subrange(k, k + 11)[end - k] == '<');
        assert(tag[end - k] != '<');
    }
}

/// The text before the first tag, and what follows it.
proof fn lemma_first_tag(text: Seq<char>, rest: Seq<char>, s: Seq<char>, from: int)
    requires
        0 <= from,
        s.skip(from) == text + "<framerate>"@ + rest,
        from <= s.len(),
        !contains(text, "<framerate>"@),
    ensures
        from + text.len() + 11 <= s.len(),
        pieces_between(s, "<framerate>"@, from) == seq![text] + pieces_between(
            s,
            "<framerate>"@,
            from + text.len() + 11,
        ),
        s.skip(from + text.len() + 11) == rest,
{
    reveal_strlit("<framerate>");
    let tag = "<framerate>"@;
    let at = from + text.len();
    let tail = s.skip(from);
    assert(tail.len() == text.len() + 11 + rest.len());
    assert forall|k: int| 0 <= k < tail.len() implies s[from + k] == #[trigger] tail[k] by {}
    assert(s.subrange(from, at) =~= text) by {
        assert forall|k: int| 0 <= k < text.len() implies s.subrange(from, at)[k] == text[k] by {
            assert(tail[k] == text[k]);
        }
    }
    assert(s.subrange(at, at + 11) =~= tag) by {
        assert forall|k: int| 0 <= k < 11 implies s.subrange(at, at + 11)[k] == tag[k] by {
            assert(tail[text.len() + k] == tag[k]);
        }
    }
    assert(s.skip(at + 11) =~= rest) by {
        assert forall|k: int| 0 <= k < rest.len() implies s.skip(at + 11)[k] == rest[k] by {
            assert(tail[text.len() + 11 + k] == rest[k]);
        }
    }
    assert(s[at] == s.subrange(at, at + 11)[0]);
    assert forall|k: int| from <= k < at implies #[trigger] s.subrange(k, k + tag.len()) != tag by {
        lemma_not_before(s, text, from, k);
    }
    lemma_pattern_first(s, tag, from, at);
}

/// The last text, which begins with a number and a closing tag, keeps them.
proof fn lemma_last_field(x: Seq<char>, after: Seq<char>, s: Seq<char>, from: int)
    requires
        0 <= from <= s.len(),
        s.skip(from) == x + "</framerate>"@ + after,
        forall|k: int| 0 <= k < x.len() ==> #[trigger] x[k] != '<',
    ensures
        pieces_between(s, "<framerate>"@, from).len() > 0,
        framerate_field(pieces_between(s, "<framerate>"@, from)[0]) == number(trim(x)),
{
    reveal_strlit("<framerate>");
    reveal_strlit("</framerate>");
    let tag = "<framerate>"@;
    let close = "</framerate>"@;
    let tail = s.skip(from);
    let head = x.len() as int + 12;
    assert forall|k: int| 0 <= k < tail.len() implies s[from + k] == #[trigger] tail[k] by {}
    lemma_pattern_found(s, tag, from);
    match pattern_index(s, tag, from) {
        Some(e) => {
            let k = e - from;
            if k < head {
                assert(s.subrange(e, e + 11)[0] == tail[k]);
                assert(s.subrange(e, e + 11)[1] == tail[k + 1]);
                if k < x.len() {
                    assert(tail[k] == x[k]);
                } else {
                    assert(tail[k] == close[k - x.len()]);
                    assert(k == x.len());
                    assert(tail[k + 1] == close[1]);
                }
                assert(false);
            }
            let v = tail.subrange(head, k);
            assert(s.subrange(from, e) =~= x + close + v);
            lemma_framerate_field(x, v);
        },
        None => {
            assert(s.subrange(from, s.len() as int) =~= tail);
            lemma_framerate_field(x, after);
        },
    }
}

/// The frame rate of a channel is the number in its first `<framerate>` element divided by the one
/// in its second, whatever stands around them. There is none where one of the two is no number, or
/// the second is zero.
pub proof fn law_channel_rate_is_read(
    before: Seq<char>,
    first: Seq<char>,
    between: Seq<char>,
    second: Seq<char>,
    after: Seq<char>,
)
    requires
        !contains(before, "<framerate>"@),
        !contains(first + "</framerate>"@ + between, "<framerate>"@),
        forall|k: int| 0 <= k < first.len() ==> #[trigger] first[k] != '<',
        forall|k: int| 0 <= k < second.len() ==> #[trigger] second[k] != '<',
    ensures
        channel_rate(
            before + "<framerate>"@ + (first + "</framerate>"@ + between + "<framerate>"@ + (second
                + "</framerate>"@ + after)),
        ) == match (number(trim(first)), number(trim(second))) {
            (Some(num), Some(den)) => if is_zero(den) {
                None
            } else {
                Some(quotient(single(), num, den))
            },
            _ => None,
        },
{
    let tag = "<framerate>"@;
    let t1 = first + "</framerate>"@ + between;
    let t2 = second + "</framerate>"@ + after;
    let xml = before + tag + (t1 + tag + t2);
    let b = before.len() as int + 11;
    let c = b + t1.len() + 11;
    assert(xml.skip(0) =~= xml);
    lemma_first_tag(before, t1 + tag + t2, xml, 0);
    lemma_first_tag(t1, t2, xml, b);
    lemma_last_field(second, after, xml, c);
    lemma_framerate_field(first, between);
    let rest = pieces_between(xml, tag, c);
    let all = pieces_between(xml, tag, 0);
    assert(all == seq![before] + (seq![t1] + rest));
    assert(all[1] == t1 && all[2] == rest[0]);
}

/// A command to play from a frame is the one to play from the start, with the frame at its end,
/// whichever frame it is.
pub proof fn law_seek_frame_follows_the_file(
    channel: u16,
    layer: u16,
    file: Seq<char>,
    frame: u32,
)
    ensures
        play_command(channel, layer, file, Some(frame)) == play_command(channel, layer, file, None)
            + (" SEEK "@ + decimal(frame as nat)),
{
    assert(play_command(channel, layer, file, None) =~= "PLAY "@ + decimal(channel as nat) + "-"@
        + decimal(layer as nat) + " \""@ + file + "\""@);
}

/// Commands on a layer have their word in front, and then the channel and the layer. What is to be
/// played stands after that in quotes.
pub proof fn law_commands_name_channel_and_layer(channel: u16, layer: u16, file: Seq<char>)
    ensures
        ({
            let place = decimal(channel as nat) + "-"@ + decimal(layer as nat);
            &&& pause_command(channel, layer) == "PAUSE "@ + place
            &&& stop_command(channel, layer) == "STOP "@ + place
            &&& play_command(channel, layer, file, None) == "PLAY "@ + place + " \""@ + file
                + "\""@
        }),
{
    let place = decimal(channel as nat) + "-"@ + decimal(layer as nat);
    assert(pause_command(channel, layer) =~= "PAUSE "@ + place);
    assert(stop_command(channel, layer) =~= "STOP "@ + place);
    assert(play_command(channel, layer, file, None) =~= "PLAY "@ + place + " \""@ + file + "\""@);
}

/// A status line reports success by the digit 2 in front, whatever follows, and a list by the
/// number 200.
pub proof fn law_status_is_told_by_its_number(first: char, rest: Seq<char>)
    ensures
        is_success(seq![first] + rest) <==> first == '2',
        !is_success(seq![]),
        announces_list("200"@ + rest),
        rest.len() >= 3 && (rest[0] != '2' || rest[1] != '0' || rest[2] != '0')
            ==> !announces_list(rest),
        rest.len() < 3 ==> !announces_list(rest),
{
    reveal_strlit("200");
    assert(("200"@ + rest).take(3) =~= "200"@);
    if rest.len() >= 3 {
        let head = rest.take(3);
        assert(head[0] == rest[0] && head[1] == rest[1] && head[2] == rest[2]);
    }
}

/// The XML of a channel ends with a line that holds its closing tag, or nothing but white space,
/// and with no other line.
pub proof fn law_channel_ends_with_its_tag(line: Seq<char>)
    ensures
        ends_channel(line) <==> is_blank(line) || exists|a: Seq<char>, b: Seq<char>|
            line == #[trigger] (a + "</channel>"@ + b),
{
    law_pattern_is_contained(line, "</channel>"@);
    law_trimming_takes_white_space_away(line);
    let (a, b) = choose|a: Seq<char>, b: Seq<char>| #[trigger]
        (a + trim(line) + b) == line && is_blank(a) && is_blank(b);
    if trim(line).len() == 0 {
        assert forall|i: int| 0 <= i < line.len() implies is_space(#[trigger] line[i]) by {
            if i < a.len() {
                assert(line[i] == a[i]);
            } else {
                assert(line[i] == b[i - a.len()]);
            }
        }
    } else {
        assert(line[a.len() as int] == trim(line)[0]);
    }
}

/// An event that does not answer what is to be done changes nothing.
pub proof fn law_stray_events_change_nothing(phase: PhaseModel, event: EventModel)
    requires
        match action_in(phase) {
            ActionModel::Send(_) => !(event is Status) && !(event is SendFailed),
            ActionModel::Reconnect => !(event is Connected) && !(event is ConnectFailed),
            ActionModel::ReadLine => !(event is Line) && !(event is ReadFailed),
            ActionModel::Rest => true,
        },
    ensures
        after_event(phase, event) == phase,
{
}

/// Where a line cannot be read, the exchange ends with that as its cause.
pub proof fn law_failed_read_ends_the_exchange(phase: PhaseModel, cause: AmcpFault)
    requires
        action_in(phase) == ActionModel::ReadLine,
    ensures
        after_event(phase, EventModel::ReadFailed(cause)) == (PhaseModel::Finished {
            result: Err(cause),
        }),
{
}

/// The frame rate of a channel is asked for by its number, and read from all lines that follow the
/// status line, up to the first one that ends the XML. There is no other way to succeed.
pub proof fn law_channel_is_asked_for_and_read(
    channel: u16,
    status: Seq<char>,
    lines: Seq<Seq<char>>,
    end: Seq<char>,
)
    requires
        is_success(status),
        forall|i: int| 0 <= i < lines.len() ==> !ends_channel(#[trigger] lines[i]),
        ends_channel(end),
    ensures
        ({
            let start = begun(PurposeModel::ChannelFps, info_command(channel));
            let asked = after_event(start, EventModel::Status(status));
            &&& action_in(start) == ActionModel::Send("INFO "@ + decimal(channel as nat) + "\r\n"@)
            &&& after_lines(asked, lines.push(end)) == (PhaseModel::Finished {
                result: match channel_rate(joined(lines) + end) {
                    Some(fps) => Ok(ReplyModel::Fps(fps)),
                    None => Err(AmcpFault::Framerate),
                },
            })
        }),
{
    law_channel_is_read_to_its_end(lines, end);
}

/// A media file is asked for by its name in quotes.
pub proof fn law_media_file_is_asked_for_by_name(filename: Seq<char>)
    ensures
        action_in(begun(PurposeModel::Cinf { filename }, cinf_command(filename)))
            == ActionModel::Send("CINF \""@ + filename + "\""@ + "\r\n"@),
{
}

/// What a response on a media file says is handed on with the number of further matches, and an
/// error in it is handed on as it is.
pub proof fn law_response_is_handed_on(line: Seq<char>, filename: Seq<char>, extra: u32)
    ensures
        match cinf_outcome(line, filename, extra) {
            Ok(reply) => cinf_response(line, filename) matches Ok(info) && reply
                == (ReplyModel::Media { info, extra }),
            Err(fault) => cinf_response(line, filename) matches Err(cause) && fault
                == AmcpFault::Cinf(cause),
        },
{
}

/// The words for an error quote what it is about: the part of the response, the command, the
/// address or the cause.
pub proof fn law_error_texts_quote_their_subject(fault: AmcpFault)
    ensures
        match fault {
            AmcpFault::ConnectTimeout { address } => contains(amcp_fault_text(fault), address),
            AmcpFault::Connect { address, cause } => contains(
                amcp_fault_text(fault),
                address + ": "@ + cause,
            ),
            AmcpFault::SendTimeout { command } => contains(amcp_fault_text(fault), command),
            AmcpFault::ResponseTimeout { command } => contains(amcp_fault_text(fault), command),
            AmcpFault::Io { cause } => amcp_fault_text(fault) == cause,
            AmcpFault::Refused { response } => contains(amcp_fault_text(fault), response),
            AmcpFault::Cinf(CinfFault::Fields { line }) => contains(amcp_fault_text(fault), line),
            AmcpFault::Cinf(CinfFault::MediaType { name }) => contains(
                amcp_fault_text(fault),
                name,
            ),
            AmcpFault::Cinf(CinfFault::FrameCount { field }) => contains(
                amcp_fault_text(fault),
                field,
            ),
            AmcpFault::Cinf(CinfFault::Numerator { field }) => contains(
                amcp_fault_text(fault),
                field,
            ),
            AmcpFault::Cinf(CinfFault::Denominator { field }) => contains(
                amcp_fault_text(fault),
                field,
            ),
            AmcpFault::Cinf(CinfFault::FrameRate { field }) => contains(
                amcp_fault_text(fault),
                field,
            ),
            _ => true,
        },
{
    match fault {
        AmcpFault::ConnectTimeout { address } => {
            lemma_contained("connection to "@, address, " timed out"@);
        },
        AmcpFault::Connect { address, cause } => {
            lemma_quoted("failed to connect to "@, address + ": "@ + cause);
            assert("failed to connect to "@ + (address + ": "@ + cause) =~= amcp_fault_text(fault));
        },
        AmcpFault::SendTimeout { command } => {
            lemma_quoted("send timed out: "@, command);
        },
        AmcpFault::ResponseTimeout { command } => {
            lemma_quoted("response timed out: "@, command);
        },
        AmcpFault::Refused { response } => {
            lemma_quoted("AMCP error: "@, response);
        },
        AmcpFault::Cinf(CinfFault::Fields { line }) => {
            lemma_quoted("failed to parse CINF response: "@, line);
        },
        AmcpFault::Cinf(CinfFault::MediaType { name }) => {
            lemma_quoted("unknown media type: "@, name);
        },
        AmcpFault::Cinf(CinfFault::FrameCount { field }) => {
            lemma_quoted("invalid frame count in CINF response: "@, field);
        },
        AmcpFault::Cinf(CinfFault::Numerator { field }) => {
            lemma_quoted("invalid frame rate numerator in CINF response: "@, field);
        },
        AmcpFault::Cinf(CinfFault::Denominator { field }) => {
            lemma_quoted("invalid frame rate denominator in CINF response: "@, field);
        },
        AmcpFault::Cinf(CinfFault::FrameRate { field }) => {
            lemma_quoted("invalid frame rate in CINF response: "@, field);
        },
        _ => {},
    }
}

proof fn lemma_quoted(words: Seq<char>, subject: Seq<char>)
    ensures
        contains(words + subject, subject),
{
    let none: Seq<char> = seq![];
    lemma_contained(words, subject, none);
    assert(words + subject + none =~= words + subject);
}

/// A filename without quotes ends at the first white space, and the fields are read after it.
pub proof fn law_bare_cinf_line_is_read(
    name: Seq<char>,
    fields: Seq<Seq<char>>,
    end: Seq<char>,
)
    requires
        is_one_word(name),
        name[0] != '"',
        forall|k: int| 0 <= k < fields.len() ==> is_one_word(#[trigger] fields[k]),
        forall|k: int| 0 <= k < end.len() ==> is_space(#[trigger] end[k]),
    ensures
        cinf_fields(trim(spaced(seq![name] + fields) + end)) == Ok::<_, CinfFault>(fields),
{
    let parts = seq![name] + fields;
    let line = spaced(parts);
    assert forall|k: int| 0 <= k < parts.len() implies is_one_word(#[trigger] parts[k]) by {
        if k > 0 {
            assert(parts[k] == fields[k - 1]);
        }
    }
    lemma_spaced_end(parts);
    assert(line[0] == name[0]) by {
        assert(parts[0] == name);
    }
    assert(!is_space(name[0]));
    lemma_trim(line, end);
    assert(line.skip(0) =~= line);
    lemma_words_of_spaced(line, 0, parts);
    assert(parts.drop_first() =~= fields);
}

/// A filename whose quote is not closed is refused, and so is one after which nothing follows.
pub proof fn law_open_quote_is_refused(name: Seq<char>)
    requires
        forall|k: int| 0 <= k < name.len() ==> #[trigger] name[k] != '"',
    ensures
        cinf_fields(seq!['"'] + name) == Err::<Seq<Seq<char>>, _>(CinfFault::Quote),
        cinf_fields(seq!['"'] + name + seq!['"']) is Err,
{
    let open = seq!['"'] + name;
    let bare = open + seq!['"'];
    let n = open.len() as int;
    assert forall|k: int| 1 <= k < n implies open[k] != '"' && bare[k] != '"' by {
        assert(open[k] == name[k - 1] && bare[k] == open[k]);
    }
    lemma_char_index(open, '"', 1, n);
    lemma_char_index(bare, '"', 1, n);
}

} // verus!
