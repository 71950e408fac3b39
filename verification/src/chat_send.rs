//! The command `send:chat:template.os`: what it asks of the chat process, and what it
//! prints.

use crate::strings;
use crate::text;
use vstd::prelude::*;
use vstd::string::*;
use vstd::utf8;

verus! {

/// A message for someone.
#[derive(Debug)]
pub struct SendRequest {
    pub target: String,
    pub message: String,
}

/// What a [`SendRequest`] says.
pub struct SendText {
    pub target: Seq<char>,
    pub message: Seq<char>,
}

impl View for SendRequest {
    type V = SendText;

    open spec fn view(&self) -> SendText {
        SendText { target: self.target@, message: self.message@ }
    }
}

/// A request to a process on the same node, which is to be answered in time.
#[derive(Debug)]
pub struct ChatCall {
    pub process: String,
    pub package: String,
    pub publisher: String,
    /// How long to wait for the answer, in seconds.
    pub timeout: u64,
    pub request: SendRequest,
}

/// What the command does with its arguments.
#[derive(Debug)]
pub enum Step {
    /// It prints a line and is done.
    Print(String),
    /// It sends a request and waits for the reply.
    Call(ChatCall),
}

/// What a [`Step`] says.
pub enum StepText {
    Print(Seq<char>),
    Call {
        process: Seq<char>,
        package: Seq<char>,
        publisher: Seq<char>,
        timeout: u64,
        request: SendText,
    },
}

impl View for Step {
    type V = StepText;

    open spec fn view(&self) -> StepText {
        match self {
            Step::Print(line) => StepText::Print(line@),
            Step::Call(call) => StepText::Call {
                process: call.process@,
                package: call.package@,
                publisher: call.publisher@,
                timeout: call.timeout,
                request: call.request@,
            },
        }
    }
}

/// What came back for a request.
#[derive(Debug)]
pub enum Reply {
    /// The chat process has sent the message.
    Ack,
    /// A response that says something else.
    Other,
    /// No response at all.
    Missing,
}

/// The text of some bytes, or the empty text if they are not UTF-8.
pub open spec fn lenient_text(bytes: Seq<u8>) -> Seq<char> {
    if utf8::valid_utf8(bytes) {
        utf8::decode_utf8(bytes)
    } else {
        Seq::empty()
    }
}

/// The request in some arguments: the target up to the first space, and the message
/// behind it.
pub open spec fn request_of(args: Seq<char>) -> Option<SendText> {
    match text::find(args, " "@) {
        Some(i) => Some(SendText { target: args.take(i), message: args.skip(i + 1) }),
        None => None,
    }
}

/// What the command does with its arguments, if it gets any.
pub open spec fn args_step(args: Option<Seq<u8>>) -> StepText {
    match args {
        Some(bytes) => match request_of(lenient_text(bytes)) {
            Some(request) => StepText::Call {
                process: "chat"@,
                package: "chat"@,
                publisher: "template.os"@,
                timeout: 5,
                request,
            },
            None => StepText::Print("usage:\nsend:chat:template.os target message"@),
        },
        None => StepText::Print("failed to get args!"@),
    }
}

/// What the command prints about a reply, if anything.
pub open spec fn reply_line(reply: Reply) -> Option<Seq<char>> {
    match reply {
        Reply::Ack => None,
        Reply::Other => Some("did not receive expected Ack from chat:chat:template.os"@),
        Reply::Missing => Some("did not receive expected `Response` from chat:chat:template.os"@),
    }
}

/// `String::from_utf8`: the text that the bytes encode, exactly if they are UTF-8.
#[verifier::external_body]
fn text_of_bytes(bytes: Vec<u8>) -> (r: Option<String>)
    ensures
        match r {
            Some(s) => utf8::valid_utf8(bytes@) && s@ == utf8::decode_utf8(bytes@),
            None => !utf8::valid_utf8(bytes@),
        },
{
    String::from_utf8(bytes).ok()
}

/// Reads the request in some arguments.
pub fn parse_request(args: &str) -> (r: Option<SendRequest>)
    ensures
        match r {
            Some(request) => request_of(args@) == Some(request@),
            None => request_of(args@) is None,
        },
{
    match strings::find(args, " ") {
        Some(i) => {
            proof {
                reveal_strlit(" ");
            }
            let len = args.unicode_len();
            let target = args.substring_char(0, i).to_string();
            let message = args.substring_char(i + 1, len).to_string();
            Some(SendRequest { target, message })
        },
        None => None,
    }
}

/// Decides what to do with the arguments.
pub fn on_args(args: Option<Vec<u8>>) -> (r: Step)
    ensures
        r@ == args_step(
            match args {
                Some(bytes) => Some(bytes@),
                None => None,
            },
        ),
{
    match args {
        Some(bytes) => {
            let given = match text_of_bytes(bytes) {
                Some(s) => s,
                None => String::new(),
            };
            match parse_request(given.as_str()) {
                Some(request) => Step::Call(
                    ChatCall {
                        process: "chat".to_string(),
                        package: "chat".to_string(),
                        publisher: "template.os".to_string(),
                        timeout: 5,
                        request,
                    },
                ),
                None => Step::Print("usage:\nsend:chat:template.os target message".to_string()),
            }
        },
        None => Step::Print("failed to get args!".to_string()),
    }
}

/// Decides what to print about the reply.
pub fn on_reply(reply: &Reply) -> (r: Option<String>)
    ensures
        match r {
            Some(line) => reply_line(*reply) == Some(line@),
            None => reply_line(*reply) is None,
        },
{
    match reply {
        Reply::Ack => None,
        Reply::Other => Some(
            "did not receive expected Ack from chat:chat:template.os".to_string(),
        ),
        Reply::Missing => Some(
            "did not receive expected `Response` from chat:chat:template.os".to_string(),
        ),
    }
}

/// A target without a space and a message, with a space between them, are read back.
pub proof fn law_request(target: Seq<char>, message: Seq<char>)
    requires
        !target.contains(' '),
    ensures
        request_of(target + " "@ + message) == Some(SendText { target, message }),
        args_step(Some(utf8::encode_utf8(target + " "@ + message))) == (StepText::Call {
            process: "chat"@,
            package: "chat"@,
            publisher: "template.os"@,
            timeout: 5,
            request: SendText { target, message },
        }),
{
    reveal_strlit(" ");
    let args = target + " "@ + message;
    let k = target.len() as int;
    assert(args.subrange(k, k + 1) == " "@);
    assert forall|i: int| 0 <= i < k implies !text::occurs_at(args, " "@, i) by {
        if text::occurs_at(args, " "@, i) {
            assert(args.subrange(i, i + 1)[0] == ' ');
            assert(target[i] == ' ');
        }
    }
    text::lemma_find_least(args, " "@, k);
    assert(args.take(k) == target);
    assert(args.skip(k + 1) == message);
    utf8::encode_utf8_valid_utf8(args);
    utf8::encode_utf8_decode_utf8(args);
}

/// Arguments without a space hold no request, and neither do bytes that are not UTF-8: the
/// command explains its usage. Without arguments it says so.
pub proof fn law_no_request(args: Seq<char>, bytes: Seq<u8>)
    requires
        !args.contains(' '),
        !utf8::valid_utf8(bytes),
    ensures
        request_of(args) is None,
        args_step(Some(utf8::encode_utf8(args))) == StepText::Print(
            "usage:\nsend:chat:template.os target message"@,
        ),
        args_step(Some(bytes)) == StepText::Print(
            "usage:\nsend:chat:template.os target message"@,
        ),
        args_step(None) == StepText::Print("failed to get args!"@),
{
    reveal_strlit(" ");
    let none = Seq::<char>::empty();
    text::lemma_find_from(args, " "@, 0);
    text::lemma_find_from(none, " "@, 0);
    if let Some(i) = text::find(args, " "@) {
        assert(args.subrange(i, i + 1)[0] == args[i]);
    }
    utf8::encode_utf8_valid_utf8(args);
    utf8::encode_utf8_decode_utf8(args);
}

/// A reply that is no confirmation is complained about, and a confirmation is not.
pub proof fn law_reply(reply: Reply)
    ensures
        reply_line(reply) is None <==> reply is Ack,
        reply is Other ==> reply_line(reply)
            == Some("did not receive expected Ack from chat:chat:template.os"@),
        reply is Missing ==> reply_line(reply)
            == Some("did not receive expected `Response` from chat:chat:template.os"@),
{
}

} // verus!
