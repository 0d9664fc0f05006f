//! Decoded dictionary records.

use vstd::prelude::*;

verus! {

/// One inflected or derived form of an entry, with its grammatical tags.
#[derive(Debug, Clone)]
pub struct Form {
    pub form: String,
    pub tags: Option<Vec<String>>,
}

/// One lexical entry of the dump.
#[derive(Debug, Clone)]
pub struct Word {
    pub word: String,
    /// Part of speech.
    pub pos: String,
    /// Language name.
    pub lang: String,
    pub lang_code: String,
    pub forms: Option<Vec<Form>>,
}

/// The `(form, tag)` rows that one form contributes: one per tag.
pub open spec fn tag_rows(f: Form) -> Seq<(Seq<char>, Seq<char>)> {
    match f.tags {
        Some(tags) => tags@.map_values(|t: String| (f.form@, t@)),
        None => seq![],
    }
}

/// The `(form, tag)` rows of a list of forms, in order.
pub open spec fn rows_of_forms(forms: Seq<Form>) -> Seq<(Seq<char>, Seq<char>)>
    decreases forms.len(),
{
    if forms.len() == 0 {
        seq![]
    } else {
        rows_of_forms(forms.drop_last()) + tag_rows(forms.last())
    }
}

/// The `(form, tag)` rows that an entry contributes to the word-form table.
pub open spec fn form_rows(w: Word) -> Seq<(Seq<char>, Seq<char>)> {
    match w.forms {
        Some(forms) => rows_of_forms(forms@),
        None => seq![],
    }
}

impl Form {
    pub fn new(form: String, tags: Option<Vec<String>>) -> (r: Form)
        ensures
            r.form == form,
            r.tags == tags,
    {
        Form { form, tags }
    }
}

impl Word {
    pub fn new(word: String, pos: String, lang: String, lang_code: String, forms: Option<Vec<Form>>) -> (r: Word)
        ensures
            r.word == word,
            r.pos == pos,
            r.lang == lang,
            r.lang_code == lang_code,
            r.forms == forms,
    {
        Word { word, pos, lang, lang_code, forms }
    }
}

} // verus!
