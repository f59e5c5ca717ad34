//! Metadata lines of a bulk request: which action they ask for, on which stream, under which
//! document id.

use crate::json::{Json, JsonValue, Object};
use crate::plain::{
    has_member, law_plain_form_is_unique, member_at, member_text, member_value, members_differ,
    members_json, members_text, members_view, plain_form, plain_object, plain_text, read_plain,
    writes, PlainObject,
};
use crate::text::{
    all_white, is_white, law_white_space_is_cut, lemma_texts_join, same_text, text_of, trim, trimmed,
    utf8_text,
};
use vstd::prelude::*;

verus! {

pub const CREATE: &'static str = "create";

pub const INDEX: &'static str = "index";

pub const UPDATE: &'static str = "update";

/// The key under which a metadata object names its stream.
pub const INDEX_KEY: &'static str = "_index";

/// The key under which a metadata object, and a record, holds its document id.
pub const ID_KEY: &'static str = "_id";

/// The actions that a bulk request may ask for.
pub open spec fn bulk_operators() -> Seq<Seq<char>> {
    seq![CREATE@, INDEX@, UPDATE@]
}

/// What a metadata line says: the action, the stream's name and the document id, if it has one.
pub struct Metadata {
    pub action: Seq<char>,
    pub index: Seq<char>,
    pub doc_id: Option<Seq<char>>,
}

/// What the parts of a metadata line read.
pub open spec fn metadata_view(parts: Option<(&str, &str, Option<&str>)>) -> Option<Metadata> {
    match parts {
        Some((action, index, doc_id)) => Some(
            Metadata {
                action: action@,
                index: index@,
                doc_id: match doc_id {
                    Some(id) => Some(id@),
                    None => None,
                },
            },
        ),
        None => None,
    }
}

/// The text of a string among the fields of an object.
pub open spec fn string_field(object: Map<Seq<char>, Json>, key: Seq<char>) -> Option<Seq<char>> {
    if object.contains_key(key) && object[key] is String {
        Some(object[key]->String_0)
    } else {
        None
    }
}

/// What an object says of one action: nothing where the action is not there, is no object or
/// names no stream.
pub open spec fn action_metadata(object: Map<Seq<char>, Json>, action: Seq<char>) -> Option<Metadata> {
    if object.contains_key(action) && object[action] is Object {
        let inner = object[action]->Object_0;
        match string_field(inner, INDEX_KEY@) {
            Some(index) => Some(Metadata { action, index, doc_id: string_field(inner, ID_KEY@) }),
            None => None,
        }
    } else {
        None
    }
}

/// What a metadata object says: the first of the actions that says anything.
pub open spec fn object_metadata(object: Map<Seq<char>, Json>) -> Option<Metadata> {
    if action_metadata(object, CREATE@) is Some {
        action_metadata(object, CREATE@)
    } else if action_metadata(object, INDEX@) is Some {
        action_metadata(object, INDEX@)
    } else {
        action_metadata(object, UPDATE@)
    }
}

fn string_of<'a>(object: &'a Object, key: &str) -> (result: Option<&'a str>)
    ensures
        match result {
            Some(text) => string_field(object@, key@) == Some(text@),
            None => string_field(object@, key@) is None,
        },
{
    match object.get(key) {
        Some(value) => value.as_str(),
        None => None,
    }
}

fn parse_action<'a>(object: &'a Object, action: &'a str) -> (result: Option<
    (&'a str, &'a str, Option<&'a str>),
>)
    ensures
        metadata_view(result) == action_metadata(object@, action@),
{
    match object.get(action) {
        Some(value) => match value.as_object() {
            Some(inner) => match string_of(inner, INDEX_KEY) {
                Some(index) => Some((action, index, string_of(inner, ID_KEY))),
                None => None,
            },
            None => None,
        },
        None => None,
    }
}

/// Reads a metadata line that was parsed as JSON. The value is an object.
pub fn parse_bulk_index(v: &JsonValue) -> (result: Option<(&str, &str, Option<&str>)>)
    requires
        v@ is Object,
    ensures
        metadata_view(result) == object_metadata(v@->Object_0),
{
    match v.as_object() {
        Some(object) => {
            let create = parse_action(object, CREATE);
            if create.is_some() {
                return create;
            }
            let index = parse_action(object, INDEX);
            if index.is_some() {
                return index;
            }
            parse_action(object, UPDATE)
        },
        None => None,
    }
}

/// What a metadata line says where it writes its object plainly: what the object says. A line of
/// any other form says nothing.
pub open spec fn plain_metadata(line: Seq<char>) -> Option<Metadata> {
    match plain_form(trim(line)) {
        Some(form) => object_metadata(form.object()),
        None => None,
    }
}

/// What a line of bytes says where it writes its object plainly.
pub open spec fn fast_metadata(line: Seq<u8>) -> Option<Metadata> {
    match text_of(line) {
        Some(text) => plain_metadata(text),
        None => None,
    }
}

/// The actions differ from one another.
proof fn lemma_operators_differ()
    ensures
        CREATE@ != INDEX@,
        CREATE@ != UPDATE@,
        INDEX@ != UPDATE@,
{
    reveal_strlit("create");
    reveal_strlit("index");
    reveal_strlit("update");
    assert(CREATE@[0] == 'c');
    assert(INDEX@[0] == 'i');
    assert(UPDATE@[0] == 'u');
}

/// What an object with one key says.
proof fn lemma_one_key(form: PlainObject)
    ensures
        object_metadata(form.object()) == if form.key == CREATE@ || form.key == INDEX@ || form.key
            == UPDATE@ {
            action_metadata(form.object(), form.key)
        } else {
            None
        },
{
    lemma_operators_differ();
}

/// Reads a metadata line off its raw bytes, without parsing it as JSON. A line of any form but
/// the plain one gives nothing.
pub fn parse_bulk_index_fast(line: &[u8]) -> (result: Option<(&str, &str, Option<&str>)>)
    ensures
        metadata_view(result) == fast_metadata(line@),
{
    let whole = match utf8_text(line) {
        Some(text) => text,
        None => {
            return None;
        },
    };
    let (action, members) = match read_plain(trimmed(whole)) {
        Some(parts) => parts,
        None => {
            return None;
        },
    };
    let ghost form = PlainObject { key: action@, members: members_view(members@) };
    proof {
        lemma_one_key(form);
        assert(members_differ(form.members)) by {
            assert(writes(trim(whole@), form));
        }
        assert(form.object()[action@] == Json::Object(members_json(form.members)));
    }
    if !same_text(action, CREATE) && !same_text(action, INDEX) && !same_text(action, UPDATE) {
        return None;
    }
    match member_value(&members, INDEX_KEY) {
        Some(index) => Some((action, index, member_value(&members, ID_KEY))),
        None => None,
    }
}

/// A line that writes an object plainly, with nothing around it, says what the object says: the
/// one reading never differs from the other.
pub proof fn law_plain_line_says_what_its_object_says(form: PlainObject)
    requires
        form.wf(),
    ensures
        plain_metadata(form.text()) == object_metadata(form.object()),
{
    law_plain_form_is_unique(form);
    lemma_braced(form);
}

/// White space around a metadata line does not change what is read in it at sight.
pub proof fn law_white_space_changes_no_reading(front: Seq<u8>, line: Seq<u8>, back: Seq<u8>)
    requires
        text_of(front) matches Some(text) && all_white(text),
        text_of(back) matches Some(text) && all_white(text),
    ensures
        fast_metadata(front + line + back) == fast_metadata(line),
{
    lemma_texts_join(front, line);
    lemma_texts_join(front + line, back);
    if let Some(text) = text_of(line) {
        law_white_space_is_cut(text_of(front)->Some_0, text, text_of(back)->Some_0);
    }
}

/// On a line of bytes that writes an object plainly, reading at sight and reading the parsed object
/// say the same: nothing, where the key is no action or no stream is named.
pub proof fn law_readers_agree_on_plain_lines(line: Seq<u8>, form: PlainObject)
    requires
        plain_object(line) == Some(form),
    ensures
        fast_metadata(line) == object_metadata(form.object()),
{
    assert(writes(text_of(line)->0, form));
    law_plain_line_says_what_its_object_says(form);
}

/// A text in braces has no white space around it.
proof fn lemma_braced(form: PlainObject)
    ensures
        trim(form.text()) == form.text(),
{
    reveal_strlit("{\"");
    reveal_strlit("}}");
    let text = form.text();
    lemma_members_end(form.members, 0);
    assert(text.first() == '{');
    assert(text.last() == '}');
    assert(!is_white('{'));
    assert(!is_white('}'));
}

proof fn lemma_members_end(members: Seq<(Seq<char>, Seq<char>)>, i: int)
    requires
        0 <= i,
    ensures
        members_text(members, i).len() > 0,
        members_text(members, i).last() == '}',
    decreases members.len() - i,
{
    reveal_strlit("}}");
    if i < members.len() - 1 {
        lemma_members_end(members, i + 1);
    }
}

/// The plain metadata line for an action on a stream.
pub open spec fn line_for(action: Seq<char>, index: Seq<char>) -> Seq<char> {
    "{\""@ + action + "\":{\"_index\":\""@ + index + "\"}}"@
}

/// The plain metadata line for an action on a stream, with a document id.
pub open spec fn line_with_id(action: Seq<char>, index: Seq<char>, id: Seq<char>) -> Seq<char> {
    "{\""@ + action + "\":{\"_index\":\""@ + index + "\",\"_id\":\""@ + id + "\"}}"@
}

/// What the literals of plain lines hold, and that the actions and keys are plain.
proof fn lemma_literals(action: Seq<char>)
    requires
        bulk_operators().contains(action),
    ensures
        action == CREATE@ || action == INDEX@ || action == UPDATE@,
        plain_text(action),
        plain_text(INDEX_KEY@),
        plain_text(ID_KEY@),
        INDEX_KEY@ != ID_KEY@,
{
    reveal_strlit("create");
    reveal_strlit("index");
    reveal_strlit("update");
    reveal_strlit("_index");
    reveal_strlit("_id");
    let i = choose|i: int| 0 <= i < 3 && bulk_operators()[i] == action;
    assert(action == CREATE@ || action == INDEX@ || action == UPDATE@);
    assert(INDEX_KEY@.len() != ID_KEY@.len());
}

/// A plain metadata line says its action and its stream, and no document id, whatever the name of
/// the stream, as long as all of it stands for itself between quotes.
pub proof fn law_plain_line_is_read(action: Seq<char>, index: Seq<char>)
    requires
        bulk_operators().contains(action),
        plain_text(index),
    ensures
        plain_metadata(line_for(action, index)) == Some(Metadata { action, index, doc_id: None }),
{
    lemma_literals(action);
    let members = seq![(INDEX_KEY@, index)];
    let form = PlainObject { key: action, members };
    reveal_strlit("\":{");
    reveal_strlit("\"");
    reveal_strlit("_index");
    reveal_strlit("\":\"");
    reveal_strlit("}}");
    reveal_strlit("\":{\"_index\":\"");
    reveal_strlit("\"}}");
    assert(members_text(members, 0) =~= member_text(members[0]) + "}}"@);
    assert(form.text() =~= line_for(action, index));
    law_plain_line_says_what_its_object_says(form);
    lemma_one_key(form);
    assert(member_at(members, INDEX_KEY@, 0));
    assert(!has_member(members, ID_KEY@));
    let inner = members_json(members);
    assert(inner[INDEX_KEY@] == Json::String(index));
    assert(!inner.contains_key(ID_KEY@));
}

/// A plain metadata line with a document id says its action, its stream and the id, whatever the
/// name and the id, as long as all of them stands for itself between quotes.
pub proof fn law_plain_line_with_id_is_read(
    action: Seq<char>,
    index: Seq<char>,
    id: Seq<char>,
)
    requires
        bulk_operators().contains(action),
        plain_text(index),
        plain_text(id),
    ensures
        plain_metadata(line_with_id(action, index, id)) == Some(
            Metadata { action, index, doc_id: Some(id) },
        ),
{
    lemma_literals(action);
    let members = seq![(INDEX_KEY@, index), (ID_KEY@, id)];
    let form = PlainObject { key: action, members };
    reveal_strlit("\":{");
    reveal_strlit("\"");
    reveal_strlit(",");
    reveal_strlit("_index");
    reveal_strlit("_id");
    reveal_strlit("\":\"");
    reveal_strlit("}}");
    reveal_strlit("\":{\"_index\":\"");
    reveal_strlit("\",\"_id\":\"");
    reveal_strlit("\"}}");
    assert(members_text(members, 1) == member_text(members[1]) + "}}"@);
    assert(members_text(members, 0) == member_text(members[0]) + ","@ + members_text(members, 1));
    assert(form.text() =~= line_with_id(action, index, id));
    law_plain_line_says_what_its_object_says(form);
    lemma_one_key(form);
    assert(member_at(members, INDEX_KEY@, 0));
    assert(member_at(members, ID_KEY@, 1));
    let inner = members_json(members);
    assert(inner[INDEX_KEY@] == Json::String(index));
    assert(inner[ID_KEY@] == Json::String(id));
}

/// The object holds, under the action, an object that names a stream by a string.
pub open spec fn names_stream(object: Map<Seq<char>, Json>, action: Seq<char>) -> bool {
    &&& object.contains_key(action)
    &&& object[action] matches Json::Object(inner) && inner.contains_key("_index"@)
        && inner["_index"@] is String
}

/// The object asks for the action on the stream, under the document id.
pub open spec fn asks_for(object: Map<Seq<char>, Json>, metadata: Metadata) -> bool {
    &&& names_stream(object, metadata.action)
    &&& object[metadata.action] matches Json::Object(inner) && {
        &&& inner["_index"@] == Json::String(metadata.index)
        &&& match metadata.doc_id {
            Some(id) => inner.contains_key("_id"@) && inner["_id"@] == Json::String(id),
            None => !inner.contains_key("_id"@) || !(inner["_id"@] is String),
        }
    }
}

/// The action is one of `create`, `index` and `update`, and the object names no stream under one
/// that comes before it.
pub open spec fn asked_first(object: Map<Seq<char>, Json>, action: Seq<char>) -> bool {
    ||| action == "create"@
    ||| action == "index"@ && !names_stream(object, "create"@)
    ||| action == "update"@ && !names_stream(object, "create"@) && !names_stream(object, "index"@)
}

/// An object says what it holds under `create`, `index` or `update`: under the first of the three
/// that names a stream. It says nothing only where none of them does.
pub proof fn law_objects_are_read(object: Map<Seq<char>, Json>)
    ensures
        match object_metadata(object) {
            Some(metadata) => {
                &&& asks_for(object, metadata)
                &&& asked_first(object, metadata.action)
            },
            None => !names_stream(object, "create"@) && !names_stream(object, "index"@)
                && !names_stream(object, "update"@),
        },
{
}

/// A plain line holds no backslash and no control character, whatever it writes.
pub proof fn law_plain_lines_hold_no_escapes(line: Seq<u8>, form: PlainObject, i: int)
    requires
        plain_object(line) == Some(form),
        0 <= i < form.text().len(),
    ensures
        form.text()[i] != '\\',
        form.text()[i] as u32 >= 0x20,
        text_of(line) == Some(form.text()),
{
    assert(writes(text_of(line)->0, form));
    reveal_strlit("{\"");
    reveal_strlit("\":{");
    lemma_members_unescaped(form.members, 0);
    let tail = members_text(form.members, 0);
    let n = form.key.len() as int;
    if i >= n + 5 {
        assert(form.text()[i] == tail[i - n - 5]);
    } else if 2 <= i < n + 2 {
        assert(form.text()[i] == form.key[i - 2]);
    }
}

proof fn lemma_members_unescaped(members: Seq<(Seq<char>, Seq<char>)>, i: int)
    requires
        0 <= i,
        forall|j: int|
            0 <= j < members.len() ==> plain_text((#[trigger] members[j]).0) && plain_text(
                members[j].1,
            ),
    ensures
        forall|k: int|
            0 <= k < members_text(members, i).len() ==> (#[trigger] members_text(members, i)[k])
                != '\\' && members_text(members, i)[k] as u32 >= 0x20,
    decreases members.len() - i,
{
    reveal_strlit("}}");
    reveal_strlit(",");
    reveal_strlit("\"");
    reveal_strlit("\":\"");
    let text = members_text(members, i);
    if i < members.len() {
        let written = member_text(members[i]);
        let n = members[i].0.len() as int;
        let m = members[i].1.len() as int;
        assert forall|k: int| 0 <= k < written.len() implies (#[trigger] written[k]) != '\\'
            && written[k] as u32 >= 0x20 by {
            if 1 <= k < n + 1 {
                assert(written[k] == members[i].0[k - 1]);
            } else if n + 4 <= k < n + 4 + m {
                assert(written[k] == members[i].1[k - n - 4]);
            }
        }
        if i < members.len() - 1 {
            lemma_members_unescaped(members, i + 1);
            let rest = members_text(members, i + 1);
            assert forall|k: int| 0 <= k < text.len() implies (#[trigger] text[k]) != '\\' && text[k] as u32
                >= 0x20 by {
                if k < written.len() {
                    assert(text[k] == written[k]);
                } else if k > written.len() {
                    assert(text[k] == rest[k - written.len() - 1]);
                }
            }
        } else {
            assert forall|k: int| 0 <= k < text.len() implies (#[trigger] text[k]) != '\\' && text[k] as u32
                >= 0x20 by {
                if k < written.len() {
                    assert(text[k] == written[k]);
                }
            }
        }
    }
}

} // verus!
