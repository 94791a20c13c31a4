//! The decoding rules of the JSON format, on the tree of the document. The
//! text of a tree is written by `serde_json`; what the tree says of its
//! files is stated here.

use crate::base64::{ascii_codes, lemma_base64_field, unbase64};
use crate::formatter::{json_document, json_file, total_size};
use crate::json::JsonModel;
use crate::types::{views, FileData, Record};
use vstd::prelude::*;

verus! {

/// What one object of the `files` array says of its file.
pub open spec fn decode_json_file(entry: JsonModel) -> Option<Record> {
    match entry {
        JsonModel::Object(m) => if m.dom().contains("path"@) && m.dom().contains("size"@)
            && m.dom().contains("content"@) {
            match (m["path"@], m["size"@], m["content"@]) {
                (JsonModel::Text(path), JsonModel::Number(size), JsonModel::Text(text)) => Some(
                    Record { path, size, content: unbase64(ascii_codes(text)) },
                ),
                _ => None,
            }
        } else {
            None
        },
        _ => None,
    }
}

/// What the objects of the `files` array say of their files.
pub open spec fn decode_json_files(items: Seq<JsonModel>) -> Option<Seq<Record>> {
    if forall|i: int| 0 <= i < items.len() ==> decode_json_file(#[trigger] items[i]) is Some {
        Some(Seq::new(items.len(), |i: int| decode_json_file(items[i])->Some_0))
    } else {
        None
    }
}

/// What the tree of a JSON document says of its files.
pub open spec fn decode_json(doc: JsonModel) -> Option<Seq<Record>> {
    match doc {
        JsonModel::Object(m) => if m.dom().contains("files"@) {
            match m["files"@] {
                JsonModel::List(items) => decode_json_files(items),
                _ => None,
            }
        } else {
            None
        },
        _ => None,
    }
}

/// The number under `size` in an object of the `files` array.
pub open spec fn listed_size(entry: JsonModel) -> nat {
    match entry {
        JsonModel::Object(m) => match m["size"@] {
            JsonModel::Number(n) => n,
            _ => 0,
        },
        _ => 0,
    }
}

/// The sum of the numbers under `size` in the objects of `items`.
pub open spec fn listed_sizes(items: Seq<JsonModel>) -> nat
    decreases items.len(),
{
    if items.len() == 0 {
        0
    } else {
        listed_sizes(items.drop_last()) + listed_size(items.last())
    }
}

proof fn lemma_json_keys()
    ensures
        "path"@ != "size"@,
        "path"@ != "content"@,
        "size"@ != "content"@,
        "files"@ != "total_files"@,
        "files"@ != "total_size"@,
        "total_files"@ != "total_size"@,
{
    reveal_strlit("path");
    reveal_strlit("size");
    reveal_strlit("content");
    reveal_strlit("files");
    reveal_strlit("total_files");
    reveal_strlit("total_size");
    assert("path"@[0] != "size"@[0]);
    assert("path"@.len() != "content"@.len());
    assert("size"@.len() != "content"@.len());
    assert("files"@.len() != "total_files"@.len());
    assert("files"@.len() != "total_size"@.len());
    assert("total_files"@.len() != "total_size"@.len());
}

/// The object that the encoder makes for a file says of it what the file
/// holds.
pub proof fn lemma_json_file(f: FileData)
    ensures
        decode_json_file(json_file(f)) == Some(f@),
        listed_size(json_file(f)) == f.size,
{
    lemma_json_keys();
    lemma_base64_field(f.content@);
}

/// JSON: the tree of the document that the encoder writes for any files
/// says of each file its path, its size and its bytes, in the order given.
pub proof fn lemma_json_decodes(files: Seq<FileData>)
    ensures
        decode_json(json_document(files)) == Some(views(files)),
{
    lemma_json_keys();
    let items = files.map_values(|f: FileData| json_file(f));
    assert forall|i: int| 0 <= i < items.len() implies decode_json_file(#[trigger] items[i])
        == Some(files[i]@) by {
        lemma_json_file(files[i]);
    }
    assert(decode_json_files(items)->Some_0 =~= views(files));
}

/// The totals of a JSON document: `total_files` is the number of objects
/// in `files`, which is the number of files given, and `total_size` is the
/// sum of the numbers under `size` in those objects, which is the sum of
/// the sizes given.
pub proof fn lemma_json_totals(files: Seq<FileData>)
    ensures
        json_document(files) is Object,
        json_document(files)->Object_0.dom().contains("files"@),
        json_document(files)->Object_0.dom().contains("total_files"@),
        json_document(files)->Object_0.dom().contains("total_size"@),
        json_document(files)->Object_0["files"@] is List,
        json_document(files)->Object_0["files"@]->List_0.len() == files.len(),
        json_document(files)->Object_0["total_files"@] == JsonModel::Number(
            json_document(files)->Object_0["files"@]->List_0.len(),
        ),
        json_document(files)->Object_0["total_size"@] == JsonModel::Number(
            listed_sizes(json_document(files)->Object_0["files"@]->List_0),
        ),
        listed_sizes(json_document(files)->Object_0["files"@]->List_0) == total_size(files),
{
    lemma_json_keys();
    lemma_listed_sizes(files);
}

proof fn lemma_listed_sizes(files: Seq<FileData>)
    ensures
        listed_sizes(files.map_values(|f: FileData| json_file(f))) == total_size(files),
    decreases files.len(),
{
    let items = files.map_values(|f: FileData| json_file(f));
    if files.len() > 0 {
        lemma_listed_sizes(files.drop_last());
        assert(items.drop_last() =~= files.drop_last().map_values(|f: FileData| json_file(f)));
        lemma_json_file(files.last());
        assert(items.last() == json_file(files.last()));
    }
}

} // verus!
