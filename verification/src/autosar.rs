//! The call into the `autosar_data` crate, which loads ARXML text into a model
//! of elements and resolves the references between them. The loaded model is
//! read once, element by element in depth-first order, into the library's own
//! [`ArxmlNode`]s; everything after that works on the document.

use autosar_data::CharacterData::{Enum as EnumData, Float as FloatData, String as TextData, UnsignedInteger};
use autosar_data::{AutosarDataError, AutosarModel};
use vstd::prelude::*;

use crate::arxml_document::{CharData, LoadedElement};

verus! {

#[verifier::external_type_specification]
#[verifier::external_body]
pub struct ExAutosarDataError(AutosarDataError);

/// Whether `autosar_data` accepts `buffer` as the ARXML text of a file named
/// `file_name`, loaded into an empty model without strict checks.
pub uninterp spec fn arxml_loads(buffer: Seq<u8>, file_name: Seq<char>) -> bool;

/// The elements of the model that `autosar_data` loads from `buffer` as a file
/// named `file_name`, in the order of `AutosarModel::elements_dfs`, each read
/// into a [`LoadedElement`].
pub uninterp spec fn arxml_elements(buffer: Seq<u8>, file_name: Seq<char>) -> Seq<LoadedElement>;

/// For each element of that model, in the same order: where it is a reference
/// that does not resolve, the path of what it resolves to once `prefix` is put
/// before its text (see [`retry_targets`]).
pub uninterp spec fn arxml_retry_targets(buffer: Seq<u8>, file_name: Seq<char>, prefix: Seq<char>) -> Seq<
    Option<String>,
>;

/// `AutosarModel::new`, `AutosarModel::load_buffer` with strict checks off, and
/// `AutosarModel::elements_dfs`: each element with its depth, the XML spelling
/// of its name (`ElementName`'s `Display`), `Element::item_name`,
/// `Element::character_data` converted variant by variant and as its `Display`
/// text, `Element::path`, and
/// the path of what `Element::get_reference_target` resolves it to. Whether the
/// text loads is named by [`arxml_loads`], the elements by [`arxml_elements`].
#[verifier::external_body]
pub(crate) fn load_document(buffer: &[u8], file_name: &str) -> (r: Result<Vec<LoadedElement>, AutosarDataError>)
    ensures
        r is Ok <==> arxml_loads(buffer@, file_name@),
        r matches Ok(elements) ==> elements@ == arxml_elements(buffer@, file_name@),
{
    let model = AutosarModel::new();
    model.load_buffer(buffer, file_name, false)?;
    Ok(model.elements_dfs().map(|(depth, e)| LoadedElement {
        depth, name: e.element_name().to_string(), item_name: e.item_name(),
        content: e.character_data().map(|c| match c {
            EnumData(item) => CharData::Enum(item.to_string()),
            TextData(text) => CharData::Text(text),
            UnsignedInteger(value) => CharData::Unsigned(value),
            FloatData(x) => CharData::Float(x.to_bits()),
        }),
        text: e.character_data().map(|c| c.to_string()),
        path: e.path().ok(),
        target: e.get_reference_target().and_then(|t| t.path()).ok(),
    }).collect())
}

/// A second model loaded as in [`load_document`], whose references are retried
/// one by one in the order of `AutosarModel::elements_dfs`: where
/// `Element::get_reference_target` answers `InvalidReference` and the element
/// has character data, `Element::set_character_data` puts `prefix` before the
/// data's text, and `get_reference_target` is asked again, with its check of the
/// reference's `DEST` against the target's type; the path of what it resolves
/// to is recorded. A rewrite changes no element's path and no other element's
/// reference, and the walk goes over the same elements as [`load_document`]'s.
/// This second model is dropped afterwards: the rewritten texts are not kept.
#[verifier::external_body]
pub(crate) fn retry_targets(buffer: &[u8], file_name: &str, prefix: &str) -> (r: Result<
    Vec<Option<String>>,
    AutosarDataError,
>)
    ensures
        r is Ok <==> arxml_loads(buffer@, file_name@),
        r matches Ok(targets) ==> targets@ == arxml_retry_targets(buffer@, file_name@, prefix@),
        r matches Ok(targets) ==> targets@.len() == arxml_elements(buffer@, file_name@).len(),
{
    let model = AutosarModel::new();
    model.load_buffer(buffer, file_name, false)?;
    Ok(model.elements_dfs().map(|(_, e)| match (e.get_reference_target(), e.character_data()) {
        (Err(AutosarDataError::InvalidReference), Some(data)) => {
            let _ = e.set_character_data(TextData(format!("{prefix}{data}")));
            e.get_reference_target().and_then(|t| t.path()).ok()
        },
        _ => None,
    }).collect())
}

/// `AutosarDataError`'s `Display`: a description of the error.
#[verifier::external_body]
pub(crate) fn error_text(error: &AutosarDataError) -> String {
    error.to_string()
}

} // verus!
