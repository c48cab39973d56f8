//! The command layer: the meaning of request frames, the reply the server
//! owes to each request, and the shape a client gives its commands on the
//! wire. A request is an array of bulk strings naming a store operation;
//! the server applies it to the store and answers with exactly one frame.
use vstd::prelude::*;
use crate::frame::{Frame, FrameView, views_of, lemma_views_of, wf};
use crate::scan::{contains_crlf, crlf_at, is_utf8, lemma_ascii_is_utf8, copy_range};
use crate::store::DB;

verus! {

/// Model of a command: byte strings as sequences.
pub enum CommandView {
    Put { key: Seq<u8>, val: Seq<u8> },
    Get { key: Seq<u8> },
    Del { key: Seq<u8> },
}

/// A store command: write a value, read it back, or delete it.
#[derive(Debug, PartialEq, Eq)]
pub enum Command {
    Put { key: Vec<u8>, val: Vec<u8> },
    Get { key: Vec<u8> },
    Del { key: Vec<u8> },
}

impl View for Command {
    type V = CommandView;

    open spec fn view(&self) -> CommandView {
        match self {
            Command::Put { key, val } => CommandView::Put { key: key@, val: val@ },
            Command::Get { key } => CommandView::Get { key: key@ },
            Command::Del { key } => CommandView::Del { key: key@ },
        }
    }
}

/// The name of the write command on the wire.
pub open spec fn set_name() -> Seq<u8> {
    seq![83u8, 69u8, 84u8]
}

/// The name of the read command on the wire.
pub open spec fn get_name() -> Seq<u8> {
    seq![71u8, 69u8, 84u8]
}

/// The name of the delete command on the wire.
pub open spec fn del_name() -> Seq<u8> {
    seq![68u8, 69u8, 76u8]
}

/// The acknowledgment text of a successful write.
pub open spec fn ok_text() -> Seq<u8> {
    seq![79u8, 75u8]
}

/// The error text for a read of an absent key.
pub open spec fn not_found_text() -> Seq<u8> {
    seq![75u8, 101u8, 121u8, 32u8, 110u8, 111u8, 116u8, 32u8, 102u8, 111u8, 117u8, 110u8, 100u8]
}

/// The error text for a request that names no command.
pub open spec fn illegal_text() -> Seq<u8> {
    seq![
        73u8, 108u8, 108u8, 101u8, 103u8, 97u8, 108u8, 32u8, 99u8, 111u8, 109u8, 109u8, 97u8,
        110u8, 100u8,
    ]
}

/// The frame a command takes on the wire: an array of bulk strings, the
/// command's name first.
pub open spec fn cmd_frame(c: CommandView) -> FrameView {
    match c {
        CommandView::Put { key, val } => FrameView::Array(
            seq![FrameView::Bulk(set_name()), FrameView::Bulk(key), FrameView::Bulk(val)],
        ),
        CommandView::Get { key } => FrameView::Array(
            seq![FrameView::Bulk(get_name()), FrameView::Bulk(key)],
        ),
        CommandView::Del { key } => FrameView::Array(
            seq![FrameView::Bulk(del_name()), FrameView::Bulk(key)],
        ),
    }
}

/// The command a frame means, if any: an array of bulk strings whose first
/// element names the command and whose arity fits it.
pub open spec fn frame_command(f: FrameView) -> Option<CommandView> {
    match f {
        FrameView::Array(v) => {
            if v.len() == 3 && v[0] == FrameView::Bulk(set_name()) && v[1] is Bulk
                && v[2] is Bulk {
                Some(CommandView::Put { key: v[1]->Bulk_0, val: v[2]->Bulk_0 })
            } else if v.len() == 2 && v[0] == FrameView::Bulk(get_name()) && v[1] is Bulk {
                Some(CommandView::Get { key: v[1]->Bulk_0 })
            } else if v.len() == 2 && v[0] == FrameView::Bulk(del_name()) && v[1] is Bulk {
                Some(CommandView::Del { key: v[1]->Bulk_0 })
            } else {
                None
            }
        },
        _ => None,
    }
}

/// Reading a command's wire frame back gives the command: the two public
/// conversions of this layer agree.
pub proof fn lemma_command_round_trip(c: CommandView)
    ensures
        frame_command(cmd_frame(c)) == Some(c),
{
    match c {
        CommandView::Put { key, val } => {
            let v = cmd_frame(c)->Array_0;
            assert(v[0] == FrameView::Bulk(set_name()));
            assert(v[1] == FrameView::Bulk(key));
            assert(v[2] == FrameView::Bulk(val));
        },
        CommandView::Get { key } => {
            let v = cmd_frame(c)->Array_0;
            assert(v[0] == FrameView::Bulk(get_name()));
            assert(v[1] == FrameView::Bulk(key));
            assert(get_name()[0] != set_name()[0]);
        },
        CommandView::Del { key } => {
            let v = cmd_frame(c)->Array_0;
            assert(v[0] == FrameView::Bulk(del_name()));
            assert(v[1] == FrameView::Bulk(key));
            assert(del_name()[0] != get_name()[0]);
        },
    }
}

/// Fresh three-byte vector.
fn name3(a: u8, b: u8, c: u8) -> (r: Vec<u8>)
    ensures
        r@ == seq![a, b, c],
{
    let mut r: Vec<u8> = Vec::new();
    r.push(a);
    r.push(b);
    r.push(c);
    proof {
        assert(r@ =~= seq![a, b, c]);
    }
    r
}

/// Whether `name` is the three bytes `a b c`.
fn name_is(name: &Vec<u8>, a: u8, b: u8, c: u8) -> (r: bool)
    ensures
        r == (name@ == seq![a, b, c]),
{
    let r = name.len() == 3 && name[0] == a && name[1] == b && name[2] == c;
    proof {
        if r {
            assert(name@ =~= seq![a, b, c]);
        }
    }
    r
}

impl Command {
    /// A write command.
    pub fn set(key: Vec<u8>, val: Vec<u8>) -> (c: Self)
        ensures
            c@ == (CommandView::Put { key: key@, val: val@ }),
    {
        Command::Put { key, val }
    }

    /// A read command.
    pub fn get(key: Vec<u8>) -> (c: Self)
        ensures
            c@ == (CommandView::Get { key: key@ }),
    {
        Command::Get { key }
    }

    /// A delete command.
    pub fn del(key: Vec<u8>) -> (c: Self)
        ensures
            c@ == (CommandView::Del { key: key@ }),
    {
        Command::Del { key }
    }

    /// The command a request frame carries, or `None` for any other frame.
    pub fn parse_command(frame: &Frame) -> (r: Option<Command>)
        ensures
            match r {
                Some(c) => frame_command(frame@) == Some(c@),
                None => frame_command(frame@) is None,
            },
    {
        match frame {
            Frame::Array(v) => {
                proof {
                    lemma_views_of(v@);
                }
                let n = v.len();
                if n == 3 {
                    match (&v[0], &v[1], &v[2]) {
                        (Frame::Bulk(name), Frame::Bulk(key), Frame::Bulk(val)) => {
                            if name_is(name, 83, 69, 84) {
                                proof {
                                    assert(frame@->Array_0 == views_of(v@));
                                    assert(views_of(v@)[0] == v@[0]@);
                                    assert(v@[0]@ == FrameView::Bulk(name@));
                                    assert(name@ == set_name());
                                    assert(views_of(v@)[1] == v@[1]@);
                                    assert(v@[1]@ == FrameView::Bulk(key@));
                                    assert(views_of(v@)[2] == v@[2]@);
                                    assert(v@[2]@ == FrameView::Bulk(val@));
                                }
                                Some(Command::Put {
                                    key: copy_whole(key),
                                    val: copy_whole(val),
                                })
                            } else {
                                None
                            }
                        },
                        _ => None,
                    }
                } else if n == 2 {
                    match (&v[0], &v[1]) {
                        (Frame::Bulk(name), Frame::Bulk(key)) => {
                            if name_is(name, 71, 69, 84) {
                                Some(Command::Get { key: copy_whole(key) })
                            } else if name_is(name, 68, 69, 76) {
                                Some(Command::Del { key: copy_whole(key) })
                            } else {
                                None
                            }
                        },
                        _ => None,
                    }
                } else {
                    None
                }
            },
            _ => None,
        }
    }

    /// The wire frame of this command.
    pub fn to_frame(&self) -> (f: Frame)
        ensures
            f@ == cmd_frame(self@),
            wf(f@),
    {
        match self {
            Command::Put { key, val } => {
                let mut items: Vec<Frame> = Vec::new();
                items.push(Frame::Bulk(name3(83, 69, 84)));
                items.push(Frame::Bulk(copy_whole(key)));
                items.push(Frame::Bulk(copy_whole(val)));
                proof {
                    lemma_views_of(items@);
                    assert(self@ == (CommandView::Put { key: key@, val: val@ }));
                    assert(items@[0]@ == FrameView::Bulk(set_name()));
                    assert(items@[1]@ == FrameView::Bulk(key@));
                    assert(items@[2]@ == FrameView::Bulk(val@));
                    assert(views_of(items@)[0] == items@[0]@);
                    assert(views_of(items@)[1] == items@[1]@);
                    assert(views_of(items@)[2] == items@[2]@);
                    assert(views_of(items@) =~= cmd_frame(self@)->Array_0);
                    lemma_name_wf();
                    assert(key.len() == key@.len());
                    assert(val.len() == val@.len());
                    let cv = cmd_frame(self@)->Array_0;
                    assert forall|k: int| 0 <= k < cv.len() implies wf(#[trigger] cv[k]) by {
                        if k == 0 {
                            assert(wf(cv[0]));
                        } else if k == 1 {
                            assert(cv[1] == FrameView::Bulk(key@));
                        } else {
                            assert(cv[2] == FrameView::Bulk(val@));
                        }
                    }
                }
                Frame::Array(items)
            },
            Command::Get { key } => {
                let mut items: Vec<Frame> = Vec::new();
                items.push(Frame::Bulk(name3(71, 69, 84)));
                items.push(Frame::Bulk(copy_whole(key)));
                proof {
                    lemma_views_of(items@);
                    assert(self@ == (CommandView::Get { key: key@ }));
                    assert(items@[0]@ == FrameView::Bulk(get_name()));
                    assert(items@[1]@ == FrameView::Bulk(key@));
                    assert(views_of(items@)[0] == items@[0]@);
                    assert(views_of(items@)[1] == items@[1]@);
                    assert(views_of(items@) =~= cmd_frame(self@)->Array_0);
                    lemma_name_wf();
                    assert(key.len() == key@.len());
                    let cv = cmd_frame(self@)->Array_0;
                    assert forall|k: int| 0 <= k < cv.len() implies wf(#[trigger] cv[k]) by {
                        if k == 0 {
                            assert(wf(cv[0]));
                        } else {
                            assert(cv[1] == FrameView::Bulk(key@));
                        }
                    }
                }
                Frame::Array(items)
            },
            Command::Del { key } => {
                let mut items: Vec<Frame> = Vec::new();
                items.push(Frame::Bulk(name3(68, 69, 76)));
                items.push(Frame::Bulk(copy_whole(key)));
                proof {
                    lemma_views_of(items@);
                    assert(self@ == (CommandView::Del { key: key@ }));
                    assert(items@[0]@ == FrameView::Bulk(del_name()));
                    assert(items@[1]@ == FrameView::Bulk(key@));
                    assert(views_of(items@)[0] == items@[0]@);
                    assert(views_of(items@)[1] == items@[1]@);
                    assert(views_of(items@) =~= cmd_frame(self@)->Array_0);
                    lemma_name_wf();
                    assert(key.len() == key@.len());
                    let cv = cmd_frame(self@)->Array_0;
                    assert forall|k: int| 0 <= k < cv.len() implies wf(#[trigger] cv[k]) by {
                        if k == 0 {
                            assert(wf(cv[0]));
                        } else {
                            assert(cv[1] == FrameView::Bulk(key@));
                        }
                    }
                }
                Frame::Array(items)
            },
        }
    }
}

/// The three command names are short bulk payloads, fit for the wire.
proof fn lemma_name_wf()
    ensures
        wf(FrameView::Bulk(set_name())),
        wf(FrameView::Bulk(get_name())),
        wf(FrameView::Bulk(del_name())),
{
}

/// Copy a byte string whole.
fn copy_whole(b: &Vec<u8>) -> (r: Vec<u8>)
    ensures
        r@ == b@,
{
    let r = copy_range(b, 0, b.len());
    proof {
        assert(b@.subrange(0, b@.len() as int) =~= b@);
    }
    r
}

/// The store contents after serving a request: a write inserts, a delete
/// removes, anything else leaves the store unchanged.
pub open spec fn db_after(db: Map<Seq<u8>, Seq<u8>>, f: FrameView) -> Map<Seq<u8>, Seq<u8>> {
    match frame_command(f) {
        Some(CommandView::Put { key, val }) => db.insert(key, val),
        Some(CommandView::Del { key }) => db.remove(key),
        _ => db,
    }
}

/// The one reply the server owes to a request against the given store: an
/// acknowledgment for a write; the value, or a not-found error, for a read;
/// the count of deleted keys for a delete; an error for anything else.
pub open spec fn reply_of(db: Map<Seq<u8>, Seq<u8>>, f: FrameView) -> FrameView {
    match frame_command(f) {
        Some(CommandView::Put { key, val }) => FrameView::Simple(ok_text()),
        Some(CommandView::Get { key }) => if db.contains_key(key) {
            FrameView::Bulk(db[key])
        } else {
            FrameView::Error(not_found_text())
        },
        Some(CommandView::Del { key }) => FrameView::Integer(
            if db.contains_key(key) {
                1
            } else {
                0
            },
        ),
        None => FrameView::Error(illegal_text()),
    }
}

/// Printable ASCII text is terminator-free and well-formed UTF-8.
proof fn lemma_printable_text(t: Seq<u8>)
    requires
        forall|i: int| 0 <= i < t.len() ==> 32 <= #[trigger] t[i] < 127,
    ensures
        !contains_crlf(t),
        is_utf8(t),
{
    assert forall|j: int| !crlf_at(t, j) by {
        if 0 <= j && j + 2 <= t.len() {
            assert(32 <= t[j]);
        }
    }
    lemma_ascii_is_utf8(t);
}

/// Serve one request frame against the store: apply the command it carries,
/// if any, and return the reply frame the server sends back. The reply is
/// always fit for the wire.
pub fn respond(db: &mut DB, frame: &Frame) -> (reply: Frame)
    ensures
        final(db)@ == db_after(old(db)@, frame@),
        reply@ == reply_of(old(db)@, frame@),
        wf(reply@),
{
    match Command::parse_command(frame) {
        Some(Command::Put { key, val }) => {
            let _ = db.insert(key, val);
            let mut text: Vec<u8> = Vec::new();
            text.push(79);
            text.push(75);
            proof {
                assert(text@ =~= ok_text());
                lemma_printable_text(ok_text());
            }
            Frame::Simple(text)
        },
        Some(Command::Get { key }) => {
            match db.get(&key) {
                Some(v) => {
                    proof {
                        assert(v.len() == v@.len());
                    }
                    Frame::Bulk(v)
                },
                None => {
                    let text = not_found_bytes();
                    proof {
                        lemma_printable_text(not_found_text());
                    }
                    Frame::Error(text)
                },
            }
        },
        Some(Command::Del { key }) => {
            match db.remove(&key) {
                Some(_) => Frame::Integer(1),
                None => Frame::Integer(0),
            }
        },
        None => {
            let text = illegal_bytes();
            proof {
                lemma_printable_text(illegal_text());
            }
            Frame::Error(text)
        },
    }
}

/// The not-found error text as bytes.
fn not_found_bytes() -> (r: Vec<u8>)
    ensures
        r@ == not_found_text(),
{
    let mut r: Vec<u8> = Vec::new();
    r.push(75);
    r.push(101);
    r.push(121);
    r.push(32);
    r.push(110);
    r.push(111);
    r.push(116);
    r.push(32);
    r.push(102);
    r.push(111);
    r.push(117);
    r.push(110);
    r.push(100);
    proof {
        assert(r@ =~= not_found_text());
    }
    r
}

/// The illegal-command error text as bytes.
fn illegal_bytes() -> (r: Vec<u8>)
    ensures
        r@ == illegal_text(),
{
    let mut r: Vec<u8> = Vec::new();
    r.push(73);
    r.push(108);
    r.push(108);
    r.push(101);
    r.push(103);
    r.push(97);
    r.push(108);
    r.push(32);
    r.push(99);
    r.push(111);
    r.push(109);
    r.push(109);
    r.push(97);
    r.push(110);
    r.push(100);
    proof {
        assert(r@ =~= illegal_text());
    }
    r
}

/// The payload of a bulk reply, as a read command's result: `None` for any
/// other reply and for a closed stream.
pub fn response_value(reply: Option<Frame>) -> (r: Option<Vec<u8>>)
    ensures
        r == (match reply {
            Some(Frame::Bulk(b)) => Some(b),
            _ => None,
        }),
{
    match reply {
        Some(Frame::Bulk(b)) => Some(b),
        _ => None,
    }
}

/// The count carried by an integer reply, as a delete command's result:
/// `None` for any other reply and for a closed stream.
pub fn response_count(reply: Option<Frame>) -> (r: Option<i64>)
    ensures
        r == (match reply {
            Some(Frame::Integer(n)) => Some(n),
            _ => None,
        }),
{
    match reply {
        Some(Frame::Integer(n)) => Some(n),
        _ => None,
    }
}

} // verus!
