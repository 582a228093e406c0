//! Completion: what the cursor's surroundings call for, and what is offered.
use vstd::prelude::*;
use vstd::utf8::{decode_utf8, encode_utf8, is_char_boundary};
use crate::pattern::{regex_compiles, regex_is_match, Pattern, PatternError};
use crate::text::{chars_of, contains_chars, contains_seq};

verus! {

broadcast use vstd::utf8::encode_utf8_decode_utf8, vstd::utf8::encode_utf8_valid_utf8;

/// What kind of completion the code around the cursor calls for.
#[derive(Debug, Clone, Copy, PartialEq, Eq, Structural)]
pub enum Context {
    Keyword,
    Function,
    Variable,
}

/// The pattern that decides whether the rest of the document holds a
/// keyword worth completing.
pub const CONTEXT_PATTERN: &'static str = r"\bval\b|\bfun\b|\bif\b|\belse\b|\bprintln\b|\bprint\b|";

/// The characters of `code` from byte offset `offset` on (`&code[offset..]`).
pub open spec fn byte_suffix(code: Seq<char>, offset: int) -> Seq<char> {
    decode_utf8(encode_utf8(code).subrange(offset, encode_utf8(code).len() as int))
}

/// The context for `code`, given whether the context pattern matched the
/// rest of it: `Function` when the code mentions `fun`, else `Variable` when
/// it mentions `val`, and `Keyword` otherwise or when nothing matched.
pub open spec fn context_for(matched: bool, code: Seq<char>) -> Context {
    if matched && contains_seq(code, seq!['f', 'u', 'n']) {
        Context::Function
    } else if matched && contains_seq(code, seq!['v', 'a', 'l']) {
        Context::Variable
    } else {
        Context::Keyword
    }
}

/// The context for `code` once the context pattern has been run.
pub fn context_from_match(matched: bool, code: &str) -> (c: Context)
    ensures
        c == context_for(matched, code@),
{
    let chars = chars_of(code);
    let fun_word: [char; 3] = ['f', 'u', 'n'];
    let val_word: [char; 3] = ['v', 'a', 'l'];
    proof {
        assert(fun_word@ =~= seq!['f', 'u', 'n']);
        assert(val_word@ =~= seq!['v', 'a', 'l']);
    }
    if matched && contains_chars(chars.as_slice(), fun_word.as_slice()) {
        Context::Function
    } else if matched && contains_chars(chars.as_slice(), val_word.as_slice()) {
        Context::Variable
    } else {
        Context::Keyword
    }
}

/// The completion context of `code` for a cursor on line `line`.
///
/// The line number is taken as a byte offset into `code`: the context
/// pattern is run on the code from that offset on, which must therefore lie
/// on a character boundary (slicing there would panic otherwise).
pub fn get_code_context(code: &str, line: u32) -> (r: Result<Context, PatternError>)
    requires
        is_char_boundary(encode_utf8(code@), line as int),
    ensures
        r is Err <==> !regex_compiles(CONTEXT_PATTERN@),
        r matches Ok(c) ==> c == context_for(
            regex_is_match(CONTEXT_PATTERN@, byte_suffix(code@, line as int)),
            code@,
        ),
{
    let pattern = match Pattern::new(CONTEXT_PATTERN) {
        Ok(p) => p,
        Err(e) => return Err(e),
    };
    let (_, rest) = code.split_at(line as usize);
    proof {
        assert(rest@ == decode_utf8(encode_utf8(rest@)));
    }
    let matched = pattern.is_match(rest);
    Ok(context_from_match(matched, code))
}


/// The kind of a completion item.
#[derive(Debug, Clone, Copy, PartialEq, Eq, Structural)]
pub enum CompletionKind {
    Keyword,
    Function,
    Variable,
}

/// A completion item offered to the editor.
#[derive(Debug)]
pub struct CompletionEntry {
    pub label: String,
    pub kind: CompletionKind,
    pub insert_text: String,
    pub documentation: String,
}

/// The text of a completion item.
pub ghost struct EntryModel {
    pub label: Seq<char>,
    pub kind: CompletionKind,
    pub insert_text: Seq<char>,
    pub documentation: Seq<char>,
}

impl DeepView for CompletionEntry {
    type V = EntryModel;

    open spec fn deep_view(&self) -> EntryModel {
        EntryModel {
            label: self.label@,
            kind: self.kind,
            insert_text: self.insert_text@,
            documentation: self.documentation@,
        }
    }
}

/// A keyword item, documented as `"Insert a <label> keyword"`.
pub open spec fn keyword_item(label: Seq<char>, insert_text: Seq<char>) -> EntryModel {
    EntryModel {
        label,
        kind: CompletionKind::Keyword,
        insert_text,
        documentation: "Insert a "@ + label + " keyword"@,
    }
}

/// A function item, documented as `"Insert a function call for <label>"`.
pub open spec fn function_item(label: Seq<char>, insert_text: Seq<char>) -> EntryModel {
    EntryModel {
        label,
        kind: CompletionKind::Function,
        insert_text,
        documentation: "Insert a function call for "@ + label,
    }
}

/// A variable item, documented as `"Insert a variable named <label>"`.
pub open spec fn variable_item(label: Seq<char>, insert_text: Seq<char>) -> EntryModel {
    EntryModel {
        label,
        kind: CompletionKind::Variable,
        insert_text,
        documentation: "Insert a variable named "@ + label,
    }
}

/// The items offered in each context.
pub open spec fn items_for(context: Context) -> Seq<EntryModel> {
    match context {
        Context::Keyword => seq![
            keyword_item("val"@, "val name = \"Kotlin\""@),
            keyword_item("fun"@, "fun myFunction() { }"@),
            keyword_item("if"@, "if (condition) { }"@),
            keyword_item("else"@, "else { }"@),
        ],
        Context::Function => seq![
            function_item("println"@, "println(\"Hello, Kotlin!\")"@),
            function_item("print"@, "print(\"Hello\")"@),
        ],
        Context::Variable => seq![variable_item("name"@, "val name = \"Kotlin\""@)],
    }
}

/// A keyword completion item.
pub fn create_keyword_completion(label: &str, insert_text: &str) -> (e: CompletionEntry)
    ensures
        e.deep_view() == keyword_item(label@, insert_text@),
{
    let mut documentation = String::from_str("Insert a ");
    documentation.append(label);
    documentation.append(" keyword");
    CompletionEntry {
        label: String::from_str(label),
        kind: CompletionKind::Keyword,
        insert_text: String::from_str(insert_text),
        documentation,
    }
}

/// A function completion item.
pub fn create_function_completion(label: &str, insert_text: &str) -> (e: CompletionEntry)
    ensures
        e.deep_view() == function_item(label@, insert_text@),
{
    let mut documentation = String::from_str("Insert a function call for ");
    documentation.append(label);
    CompletionEntry {
        label: String::from_str(label),
        kind: CompletionKind::Function,
        insert_text: String::from_str(insert_text),
        documentation,
    }
}

/// A variable completion item.
pub fn create_variable_completion(label: &str, insert_text: &str) -> (e: CompletionEntry)
    ensures
        e.deep_view() == variable_item(label@, insert_text@),
{
    let mut documentation = String::from_str("Insert a variable named ");
    documentation.append(label);
    CompletionEntry {
        label: String::from_str(label),
        kind: CompletionKind::Variable,
        insert_text: String::from_str(insert_text),
        documentation,
    }
}

/// The items offered in `context`.
pub fn completion_items(context: Context) -> (items: Vec<CompletionEntry>)
    ensures
        items.deep_view() == items_for(context),
{
    let mut items: Vec<CompletionEntry> = Vec::new();
    match context {
        Context::Keyword => {
            items.push(create_keyword_completion("val", "val name = \"Kotlin\""));
            items.push(create_keyword_completion("fun", "fun myFunction() { }"));
            items.push(create_keyword_completion("if", "if (condition) { }"));
            items.push(create_keyword_completion("else", "else { }"));
        },
        Context::Function => {
            items.push(create_function_completion("println", "println(\"Hello, Kotlin!\")"));
            items.push(create_function_completion("print", "print(\"Hello\")"));
        },
        Context::Variable => {
            items.push(create_variable_completion("name", "val name = \"Kotlin\""));
        },
    }
    proof {
        assert(items.deep_view() =~= items_for(context));
    }
    items
}

/// The completion items for a request on line `line` of the document `code`
/// (see [`get_code_context`] for how the line is used).
pub fn completions_for_document(code: &str, line: u32) -> (r: Result<Vec<CompletionEntry>, PatternError>)
    requires
        is_char_boundary(encode_utf8(code@), line as int),
    ensures
        r is Err <==> !regex_compiles(CONTEXT_PATTERN@),
        r matches Ok(items) ==> items.deep_view() == items_for(
            context_for(regex_is_match(CONTEXT_PATTERN@, byte_suffix(code@, line as int)), code@),
        ),
{
    match get_code_context(code, line) {
        Ok(context) => Ok(completion_items(context)),
        Err(e) => Err(e),
    }
}


/// The context rule: nothing matched gives `Keyword`; otherwise `fun`
/// anywhere in the code gives `Function`, else `val` anywhere in the code
/// gives `Variable`, else `Keyword`.
pub proof fn law_context_rule(code: Seq<char>)
    ensures
        context_for(false, code) == Context::Keyword,
        contains_seq(code, seq!['f', 'u', 'n']) ==> context_for(true, code) == Context::Function,
        !contains_seq(code, seq!['f', 'u', 'n']) && contains_seq(code, seq!['v', 'a', 'l'])
            ==> context_for(true, code) == Context::Variable,
        !contains_seq(code, seq!['f', 'u', 'n']) && !contains_seq(code, seq!['v', 'a', 'l'])
            ==> context_for(true, code) == Context::Keyword,
{
}

/// Where the pattern matched, a `val` after any other text, on any line,
/// makes the context `Variable` unless the code mentions `fun`.
pub proof fn law_val_anywhere_gives_variable(before: Seq<char>, after: Seq<char>)
    requires
        !contains_seq(before + seq!['v', 'a', 'l'] + after, seq!['f', 'u', 'n']),
    ensures
        context_for(true, before + seq!['v', 'a', 'l'] + after) == Context::Variable,
{
    crate::text::law_contains_anywhere(before, seq!['v', 'a', 'l'], after);
}

/// Where the pattern matched, a `fun` after any other text, on any line,
/// makes the context `Function`.
pub proof fn law_fun_anywhere_gives_function(before: Seq<char>, after: Seq<char>)
    ensures
        context_for(true, before + seq!['f', 'u', 'n'] + after) == Context::Function,
{
    crate::text::law_contains_anywhere(before, seq!['f', 'u', 'n'], after);
}


/// `s` starts with `prefix`.
pub open spec fn starts_with(s: Seq<char>, prefix: Seq<char>) -> bool {
    prefix.len() <= s.len() && s.take(prefix.len() as int) == prefix
}

/// Each function item inserts a call of the function it is labelled with:
/// its insert text is its label followed by `'('`.
pub proof fn law_function_items_call_their_label()
    ensures
        forall|i: int|
            0 <= i < items_for(Context::Function).len() ==> {
                let it = #[trigger] items_for(Context::Function)[i];
                &&& it.kind == CompletionKind::Function
                &&& starts_with(it.insert_text, it.label + seq!['('])
            },
{
    reveal_strlit("println");
    reveal_strlit("println(\"Hello, Kotlin!\")");
    reveal_strlit("print");
    reveal_strlit("print(\"Hello\")");
    let items = items_for(Context::Function);
    assert(items[0].insert_text.take(8) =~= items[0].label + seq!['(']);
    assert(items[1].insert_text.take(6) =~= items[1].label + seq!['(']);
}

/// Each keyword item inserts a construct that starts with its keyword, and
/// the keywords offered are distinct.
pub proof fn law_keyword_items_start_with_their_keyword()
    ensures
        forall|i: int|
            0 <= i < items_for(Context::Keyword).len() ==> {
                let it = #[trigger] items_for(Context::Keyword)[i];
                &&& it.kind == CompletionKind::Keyword
                &&& starts_with(it.insert_text, it.label)
            },
        forall|i: int, j: int|
            0 <= i < j < items_for(Context::Keyword).len() ==> (#[trigger] items_for(Context::Keyword)[i]).label
                != (#[trigger] items_for(Context::Keyword)[j]).label,
{
    reveal_strlit("val");
    reveal_strlit("val name = \"Kotlin\"");
    reveal_strlit("fun");
    reveal_strlit("fun myFunction() { }");
    reveal_strlit("if");
    reveal_strlit("if (condition) { }");
    reveal_strlit("else");
    reveal_strlit("else { }");
    let items = items_for(Context::Keyword);
    assert(items[0].insert_text.take(3) =~= items[0].label);
    assert(items[1].insert_text.take(3) =~= items[1].label);
    assert(items[2].insert_text.take(2) =~= items[2].label);
    assert(items[3].insert_text.take(4) =~= items[3].label);
    assert(items[0].label[0] != items[1].label[0]);
    assert(items[0].label[0] != items[2].label[0]);
    assert(items[0].label[0] != items[3].label[0]);
    assert(items[1].label[0] != items[2].label[0]);
    assert(items[1].label[0] != items[3].label[0]);
    assert(items[2].label[0] != items[3].label[0]);
}

/// The variable item inserts a declaration of the variable it is labelled
/// with: `"val "` followed by its label and `" = "`.
pub proof fn law_variable_item_declares_its_label()
    ensures
        items_for(Context::Variable).len() == 1,
        items_for(Context::Variable)[0].kind == CompletionKind::Variable,
        starts_with(
            items_for(Context::Variable)[0].insert_text,
            seq!['v', 'a', 'l', ' '] + items_for(Context::Variable)[0].label + seq![' ', '=', ' '],
        ),
{
    reveal_strlit("name");
    reveal_strlit("val name = \"Kotlin\"");
    let it = items_for(Context::Variable)[0];
    assert(it.insert_text.take(11) =~= seq!['v', 'a', 'l', ' '] + it.label + seq![' ', '=', ' ']);
}

/// Every item is documented by its label: `"Insert a <label> keyword"`,
/// `"Insert a function call for <label>"` or `"Insert a variable named <label>"`,
/// after the kind of the item, and every item of a context has that context's kind.
pub proof fn law_items_documented_by_label(context: Context)
    ensures
        forall|i: int|
            0 <= i < items_for(context).len() ==> {
                let it = #[trigger] items_for(context)[i];
                &&& context == Context::Keyword ==> it.kind == CompletionKind::Keyword
                    && it.documentation == "Insert a "@ + it.label + " keyword"@
                &&& context == Context::Function ==> it.kind == CompletionKind::Function
                    && it.documentation == "Insert a function call for "@ + it.label
                &&& context == Context::Variable ==> it.kind == CompletionKind::Variable
                    && it.documentation == "Insert a variable named "@ + it.label
            },
{
}


proof fn lemma_encode_utf8_concat(a: Seq<char>, b: Seq<char>)
    ensures
        encode_utf8(a + b) == encode_utf8(a) + encode_utf8(b),
    decreases a.len(),
{
    if a.len() == 0 {
        assert(a + b =~= b);
        assert(encode_utf8(a) =~= Seq::<u8>::empty());
        assert(encode_utf8(a) + encode_utf8(b) =~= encode_utf8(b));
    } else {
        lemma_encode_utf8_concat(a.drop_first(), b);
        assert((a + b).drop_first() =~= a.drop_first() + b);
        assert((a + b)[0] == a[0]);
        assert(encode_utf8(a + b) =~= encode_utf8(a) + encode_utf8(b));
    }
}

/// The rest of the code from a byte offset is what follows the text whose
/// UTF-8 encoding is that many bytes long; from offset 0 it is the whole code.
pub proof fn law_byte_suffix(before: Seq<char>, after: Seq<char>)
    ensures
        byte_suffix(before + after, encode_utf8(before).len() as int) == after,
        byte_suffix(after, 0) == after,
{
    lemma_encode_utf8_concat(before, after);
    let e = encode_utf8(before + after);
    let k = encode_utf8(before).len() as int;
    assert(e.subrange(k, e.len() as int) =~= encode_utf8(after));
    let f = encode_utf8(after);
    assert(f.subrange(0, f.len() as int) =~= f);
}

} // verus!
