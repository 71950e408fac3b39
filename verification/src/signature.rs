//! The signatures of remote functions, as records of a WIT file describe them.
//!
//! A record whose name holds `-signature-` stands for a function: the part before
//! it names the function, the part after it says how the function is called, and
//! the fields give the target, the argument types and the returned type. A comment
//! `// args: (name: type, ...)` above the record names the arguments.

use crate::strings;
use crate::text;
use crate::text_laws;
use crate::wit_types;
use vstd::prelude::*;
use vstd::string::*;

verus! {

/// A field of a signature record.
#[derive(Debug)]
pub struct SignatureField {
    pub name: String,
    pub wit_type: String,
}

/// A signature record.
#[derive(Debug)]
pub struct SignatureStruct {
    pub function_name: String,
    pub attr_type: String,
    pub fields: Vec<SignatureField>,
    /// The comment above the record that names the arguments.
    pub args_comment: Option<String>,
}

/// What a [`SignatureField`] says.
pub struct FieldText {
    pub name: Seq<char>,
    pub wit_type: Seq<char>,
}

/// What a [`SignatureStruct`] says.
pub struct SignatureText {
    pub function_name: Seq<char>,
    pub attr_type: Seq<char>,
    pub fields: Seq<FieldText>,
    pub args_comment: Option<Seq<char>>,
}

/// What the fields say, field by field.
pub open spec fn field_texts(fields: Seq<SignatureField>) -> Seq<FieldText> {
    Seq::new(fields.len(), |i: int| fields[i]@)
}

/// What the signatures say, one by one.
pub open spec fn signature_texts(signatures: Seq<SignatureStruct>) -> Seq<SignatureText> {
    Seq::new(signatures.len(), |i: int| signatures[i]@)
}

/// What an optional string says.
pub open spec fn optional_text(s: Option<String>) -> Option<Seq<char>> {
    match s {
        Some(s) => Some(s@),
        None => None,
    }
}

impl View for SignatureField {
    type V = FieldText;

    open spec fn view(&self) -> FieldText {
        FieldText { name: self.name@, wit_type: self.wit_type@ }
    }
}

impl View for SignatureStruct {
    type V = SignatureText;

    open spec fn view(&self) -> SignatureText {
        SignatureText {
            function_name: self.function_name@,
            attr_type: self.attr_type@,
            fields: field_texts(self.fields@),
            args_comment: optional_text(self.args_comment),
        }
    }
}

// ---------------------------------------------------------------------------
// The comment that names the arguments
// ---------------------------------------------------------------------------

/// What stands between the parentheses of the comment, if it is one that names
/// arguments.
pub open spec fn args_list(comment: Seq<char>) -> Option<Seq<char>> {
    let body = text::trim(text::strip_prefixes(text::trim(comment), "//"@));
    if text::starts_with(body, "args:"@) {
        let args = text::trim(text::strip_prefixes(body, "args:"@));
        if text::starts_with(args, "("@) && text::ends_with(args, ")"@) {
            Some(args.subrange(1, args.len() - 1))
        } else {
            None
        }
    } else {
        None
    }
}

/// The name in front of the colon in `name: type`.
pub open spec fn arg_name(piece: Seq<char>) -> Seq<char> {
    text::trim(text::split_char(piece, ':')[0])
}

/// The names in the pieces, without those that are empty.
pub open spec fn arg_names(pieces: Seq<Seq<char>>) -> Seq<Seq<char>>
    decreases pieces.len(),
{
    if pieces.len() == 0 {
        Seq::empty()
    } else {
        let name = arg_name(pieces.last());
        if name.len() == 0 {
            arg_names(pieces.drop_last())
        } else {
            arg_names(pieces.drop_last()).push(name)
        }
    }
}

/// The argument names that the comment gives.
pub open spec fn comment_names(comment: Seq<char>) -> Seq<Seq<char>> {
    match args_list(comment) {
        Some(list) => arg_names(wit_types::top_level_pieces(list)),
        None => Seq::empty(),
    }
}

/// Parses a comment like `// args: (foo: u64, bar: bool)` into the parameter names.
pub fn parse_args_comment(comment: &str) -> (r: Vec<String>)
    ensures
        text::texts(r@) == comment_names(comment@),
{
    let mut names: Vec<String> = Vec::new();
    assert(text::texts(names@) == Seq::<Seq<char>>::empty());
    let body = strings::trim(strings::strip_prefixes(strings::trim(comment), "//"));
    if !strings::starts_with(body, "args:") {
        return names;
    }
    let args = strings::trim(strings::strip_prefixes(body, "args:"));
    if !strings::starts_with(args, "(") || !strings::ends_with(args, ")") {
        return names;
    }
    proof {
        reveal_strlit("(");
        reveal_strlit(")");
        if args@.len() == 1 {
            assert(args@.subrange(0, 1)[0] == '(');
            assert(args@.subrange(0, 1)[0] == ')');
        }
    }
    let n = args.unicode_len();
    let pieces = wit_types::split_top_level(args.substring_char(1, n - 1));
    let ghost all = text::texts(pieces@);
    let mut i: usize = 0;
    while i < pieces.len()
        invariant
            i <= pieces.len(),
            all == text::texts(pieces@),
            text::texts(names@) == arg_names(all.take(i as int)),
        decreases pieces.len() - i,
    {
        let ghost before = text::texts(names@);
        assert(all.take(i + 1).drop_last() == all.take(i as int));
        let halves = strings::split_char(pieces[i].as_str(), ':');
        assert(text::texts(halves@)[0] == halves@[0]@);
        let name = strings::trim(halves[0].as_str());
        if !name.is_empty() {
            names.push(name.to_string());
            assert(text::texts(names@) == before.push(name@));
        }
        i = i + 1;
    }
    assert(all.take(all.len() as int) == all);
    names
}

// ---------------------------------------------------------------------------
// The file
// ---------------------------------------------------------------------------

/// The name that a line gives to what the keyword at its beginning defines.
pub open spec fn defined_name(line: Seq<char>, keyword: Seq<char>) -> Seq<char> {
    text::trim(text::strip_suffixes(text::strip_prefixes(line, keyword), " {"@))
}

/// The field that a line of a record defines, if it defines one.
pub open spec fn line_field(line: Seq<char>) -> Option<FieldText> {
    let l = text::trim(line);
    let halves = text::split_char(l, ':');
    if text::starts_with(l, "//"@) || halves.len() != 2 {
        None
    } else {
        Some(
            FieldText {
                name: text::trim(halves[0]),
                wit_type: text::strip_suffixes(text::trim(halves[1]), ","@),
            },
        )
    }
}

/// The fields that the lines of a record define.
pub open spec fn line_fields(lines: Seq<Seq<char>>) -> Seq<FieldText>
    decreases lines.len(),
{
    if lines.len() == 0 {
        Seq::empty()
    } else {
        match line_field(lines.last()) {
            Some(field) => line_fields(lines.drop_last()).push(field),
            None => line_fields(lines.drop_last()),
        }
    }
}

/// How many lines come before the one that closes the record.
pub open spec fn body_length(lines: Seq<Seq<char>>) -> nat
    decreases lines.len(),
{
    if lines.len() == 0 || text::starts_with(text::trim(lines[0]), "}"@) {
        0
    } else {
        1 + body_length(lines.skip(1))
    }
}

/// The lines after the one that closes the record.
pub open spec fn after_record(lines: Seq<Seq<char>>) -> Seq<Seq<char>> {
    let n = body_length(lines);
    if n < lines.len() {
        lines.skip(n as int + 1)
    } else {
        Seq::empty()
    }
}

/// What a WIT file defines: signatures, and names of records and variants.
pub struct Definitions {
    pub signatures: Seq<SignatureText>,
    pub types: Seq<Seq<char>>,
}

/// What the lines define. `pending` is the last comment that named arguments and
/// was not used by a signature yet.
pub open spec fn definitions(lines: Seq<Seq<char>>, pending: Option<Seq<char>>) -> Definitions
    decreases lines.len(),
{
    if lines.len() == 0 {
        Definitions { signatures: Seq::empty(), types: Seq::empty() }
    } else {
        let line = text::trim(lines[0]);
        let rest = lines.skip(1);
        if text::starts_with(line, "record "@) && !text::contains(line, "-signature-"@) {
            let d = definitions(rest, pending);
            Definitions { types: seq![defined_name(line, "record "@)] + d.types, ..d }
        } else if text::starts_with(line, "variant "@) {
            let d = definitions(rest, pending);
            Definitions { types: seq![defined_name(line, "variant "@)] + d.types, ..d }
        } else if text::starts_with(line, "// args:"@) {
            definitions(rest, Some(line))
        } else if text::starts_with(line, "record "@) {
            let parts = text::split(defined_name(line, "record "@), "-signature-"@);
            if parts.len() != 2 {
                definitions(rest, pending)
            } else {
                let d = definitions(after_record(rest), None);
                let signature = SignatureText {
                    function_name: parts[0],
                    attr_type: parts[1],
                    fields: line_fields(rest.take(body_length(rest) as int)),
                    args_comment: pending,
                };
                Definitions { signatures: seq![signature] + d.signatures, ..d }
            }
        } else {
            definitions(rest, pending)
        }
    }
}

/// The name that `line` gives to what the keyword at its beginning defines.
fn name_after(line: &str, keyword: &str) -> (r: String)
    ensures
        r@ == defined_name(line@, keyword@),
{
    strings::trim(
        strings::strip_suffixes(strings::strip_prefixes(line, keyword), " {"),
    ).to_string()
}

/// The field that a line of a record defines, if it defines one.
fn parse_field(line: &str) -> (r: Option<SignatureField>)
    ensures
        match r {
            Some(field) => line_field(line@) == Some(field@),
            None => line_field(line@) is None,
        },
{
    let field_line = strings::trim(line);
    if strings::starts_with(field_line, "//") {
        return None;
    }
    let field_parts = strings::split_char(field_line, ':');
    assert(text::texts(field_parts@).len() == field_parts@.len());
    if field_parts.len() != 2 {
        return None;
    }
    assert(text::texts(field_parts@)[0] == field_parts@[0]@);
    assert(text::texts(field_parts@)[1] == field_parts@[1]@);
    Some(
        SignatureField {
            name: strings::trim(field_parts[0].as_str()).to_string(),
            wit_type: strings::strip_suffixes(
                strings::trim(field_parts[1].as_str()),
                ",",
            ).to_string(),
        },
    )
}

/// Reads the fields of the record whose body begins at line `from`. Also gives the
/// position of the line that closes the record, or the number of lines if none
/// does.
fn parse_fields(lines: &Vec<String>, from: usize) -> (r: (Vec<SignatureField>, usize))
    requires
        from <= lines.len(),
    ensures
        ({
            let rest = text::texts(lines@).skip(from as int);
            &&& from <= r.1 <= lines.len()
            &&& r.1 - from == body_length(rest)
            &&& field_texts(r.0@) == line_fields(rest.take(r.1 - from))
        }),
{
    let ghost rest = text::texts(lines@).skip(from as int);
    let mut fields: Vec<SignatureField> = Vec::new();
    let mut i: usize = from;
    assert(rest.skip(0) == rest);
    assert(rest.take(0) == Seq::<Seq<char>>::empty());
    assert(field_texts(fields@) == Seq::<FieldText>::empty());
    while i < lines.len() && !strings::starts_with(strings::trim(lines[i].as_str()), "}")
        invariant
            from <= i <= lines.len(),
            rest == text::texts(lines@).skip(from as int),
            body_length(rest) == i - from + body_length(rest.skip(i - from)),
            field_texts(fields@) == line_fields(rest.take(i - from)),
        decreases lines.len() - i,
    {
        let ghost before = field_texts(fields@);
        let ghost k = i - from;
        proof {
            assert(rest[k] == lines@[i as int]@);
            assert(rest.skip(k)[0] == rest[k]);
            assert(rest.skip(k).skip(1) == rest.skip(k + 1));
            assert(rest.take(k + 1).drop_last() == rest.take(k));
        }
        if let Some(field) = parse_field(lines[i].as_str()) {
            fields.push(field);
            assert(field_texts(fields@) == before.push(field@));
        }
        i = i + 1;
    }
    proof {
        if i < lines@.len() {
            assert(rest.skip(i - from)[0] == lines@[i as int]@);
        }
    }
    (fields, i)
}

/// Reads a WIT file: the signatures that its records describe, and the names of the
/// other records and of the variants that it defines.
pub fn parse_wit_file(content: &str) -> (r: (Vec<SignatureStruct>, Vec<String>))
    ensures
        signature_texts(r.0@) == definitions(text::lines(content@), None).signatures,
        text::texts(r.1@) == definitions(text::lines(content@), None).types,
{
    let lines = strings::lines(content);
    let ghost all = text::lines(content@);
    let ghost result = definitions(all, None);
    let mut signatures: Vec<SignatureStruct> = Vec::new();
    let mut type_names: Vec<String> = Vec::new();
    let mut pending: Option<String> = None;
    let mut i: usize = 0;
    assert(all.skip(0) == all);
    assert(signature_texts(signatures@) + result.signatures == result.signatures);
    assert(text::texts(type_names@) + result.types == result.types);
    while i < lines.len()
        invariant
            i <= lines.len(),
            all == text::texts(lines@),
            result.signatures == signature_texts(signatures@) + definitions(
                all.skip(i as int),
                optional_text(pending),
            ).signatures,
            result.types == text::texts(type_names@) + definitions(
                all.skip(i as int),
                optional_text(pending),
            ).types,
        decreases lines.len() - i,
    {
        let ghost d = definitions(all.skip(i as int), optional_text(pending));
        let ghost signatures_before = signature_texts(signatures@);
        let ghost types_before = text::texts(type_names@);
        let mut next: usize = i + 1;
        let line = strings::trim(lines[i].as_str());
        proof {
            assert(all.skip(i as int)[0] == lines@[i as int]@);
            assert(all.skip(i as int).skip(1) == all.skip(i + 1));
        }
        if strings::starts_with(line, "record ") && !strings::contains(line, "-signature-") {
            type_names.push(name_after(line, "record "));
            proof {
                let name = defined_name(line@, "record "@);
                let after = definitions(all.skip(i + 1), optional_text(pending)).types;
                assert(text::texts(type_names@) == types_before.push(name));
                assert(types_before + (seq![name] + after) == types_before.push(name) + after);
            }
        } else if strings::starts_with(line, "variant ") {
            type_names.push(name_after(line, "variant "));
            proof {
                let name = defined_name(line@, "variant "@);
                let after = definitions(all.skip(i + 1), optional_text(pending)).types;
                assert(text::texts(type_names@) == types_before.push(name));
                assert(types_before + (seq![name] + after) == types_before.push(name) + after);
            }
        } else if strings::starts_with(line, "// args:") {
            pending = Some(line.to_string());
        } else if strings::starts_with(line, "record ") {
            let record_name = name_after(line, "record ");
            let parts = strings::split(record_name.as_str(), "-signature-");
            assert(text::texts(parts@).len() == parts@.len());
            if parts.len() == 2 {
                let args_comment = pending;
                pending = None;
                let (fields, end) = parse_fields(&lines, i + 1);
                let signature = SignatureStruct {
                    function_name: parts[0].clone(),
                    attr_type: parts[1].clone(),
                    fields,
                    args_comment,
                };
                let ghost said = signature@;
                signatures.push(signature);
                proof {
                    let rest = all.skip(i + 1);
                    assert(text::texts(parts@)[0] == parts@[0]@);
                    assert(text::texts(parts@)[1] == parts@[1]@);
                    assert(signature_texts(signatures@) == signatures_before.push(said));
                    let after = definitions(after_record(rest), None).signatures;
                    assert(signatures_before + (seq![said] + after) == signatures_before.push(said)
                        + after);
                    if end < lines@.len() {
                        assert(rest.skip(end - (i + 1) + 1) == all.skip(end + 1));
                    } else {
                        assert(all.skip(end as int) == Seq::<Seq<char>>::empty());
                    }
                }
                next = if end < lines.len() {
                    end + 1
                } else {
                    end
                };
            }
        }
        i = next;
    }
    assert(all.skip(all.len() as int) == Seq::<Seq<char>>::empty());
    assert(signature_texts(signatures@) + Seq::<SignatureText>::empty() == signature_texts(
        signatures@,
    ));
    assert(text::texts(type_names@) + Seq::<Seq<char>>::empty() == text::texts(type_names@));
    (signatures, type_names)
}

// ---------------------------------------------------------------------------
// Laws
// ---------------------------------------------------------------------------

/// The arguments as a comment writes them: `name: type`.
pub open spec fn written_args(names: Seq<Seq<char>>, types: Seq<Seq<char>>) -> Seq<Seq<char>> {
    Seq::new(names.len(), |i: int| names[i] + ": "@ + types[i])
}

/// A name that a comment can give to an argument: it is not empty, has no white space
/// around it, holds no colon, and is one element of a list.
pub open spec fn is_arg_name(name: Seq<char>) -> bool {
    &&& name.len() > 0
    &&& !name.contains(':')
    &&& wit_types::is_trimmed_element(name)
}

/// Parsing the comment that names arguments gives back the names that it was written
/// from. A comma separates the arguments, which a space may follow.
pub proof fn law_args_comment(names: Seq<Seq<char>>, types: Seq<Seq<char>>, sep: Seq<char>)
    requires
        names.len() == types.len(),
        forall|i: int| 0 <= i < names.len() ==> is_arg_name(#[trigger] names[i]),
        forall|i: int| 0 <= i < types.len() ==> wit_types::is_element(#[trigger] types[i]),
        wit_types::is_separator(sep),
    ensures
        comment_names("// args: ("@ + text::join(written_args(names, types), sep) + ")"@) == names,
{
    let args = written_args(names, types);
    let list = text::join(args, sep);
    lemma_args_list(list);
    if names.len() > 0 {
        assert forall|i: int| 0 <= i < args.len() implies wit_types::is_element(
            #[trigger] args[i],
        ) by {
            assert(is_arg_name(names[i]));
            assert(wit_types::is_element(types[i]));
            reveal_strlit(": ");
            wit_types::lemma_plain_element(": "@);
            wit_types::lemma_element_add(names[i], ": "@);
            wit_types::lemma_element_add(names[i] + ": "@, types[i]);
        }
        wit_types::lemma_pieces_of_list(args, sep);
        let pieces = wit_types::spaced(args, sep);
        assert forall|i: int| 0 <= i < pieces.len() implies arg_name(#[trigger] pieces[i])
            == names[i] && names[i].len() > 0 by {
            assert(is_arg_name(names[i]));
            lemma_arg_name(names[i], types[i]);
            reveal_strlit(",");
            reveal_strlit(", ");
            reveal_strlit(" ");
            if sep == ","@ {
                assert(sep.skip(1) + args[i] == args[i]);
            } else {
                assert(sep.skip(1) == " "@);
            }
        }
        lemma_all_names(pieces, names);
    } else {
        let none = Seq::<char>::empty();
        assert(list == none);
        assert(wit_types::top_level_pieces(none) == seq![none]);
        assert(text::split_char(none, ':')[0] == none);
        assert(arg_name(none) == none);
        assert(seq![none].drop_last() == Seq::<Seq<char>>::empty());
        assert(arg_names(seq![none].drop_last()) == Seq::<Seq<char>>::empty());
        assert(names == Seq::<Seq<char>>::empty());
    }
}

/// The list in the comment is what stands between its parentheses.
proof fn lemma_args_list(list: Seq<char>)
    ensures
        args_list("// args: ("@ + list + ")"@) == Some(list),
{
    let comment = "// args: ("@ + list + ")"@;
    reveal_strlit("// args: (");
    reveal_strlit("//");
    reveal_strlit("args:");
    reveal_strlit("(");
    reveal_strlit(")");
    reveal_strlit(" ");
    let args = "("@ + list + ")"@;
    let body = "args:"@ + (" "@ + args);
    text::lemma_trim_fixed(comment);
    assert(comment == "//"@ + (" "@ + body));
    assert(!text::starts_with(" "@ + body, "//"@)) by {
        assert((" "@ + body).subrange(0, 2)[0] == ' ');
    }
    text::lemma_strip_prefix(" "@ + body, "//"@);
    text::lemma_trim_fixed(body);
    text::lemma_trim_space(body);
    assert(body.subrange(0, 5) == "args:"@);
    assert(!text::starts_with(" "@ + args, "args:"@)) by {
        if (" "@ + args).len() >= 5 {
            assert((" "@ + args).subrange(0, 5)[0] == ' ');
        }
    }
    text::lemma_strip_prefix(" "@ + args, "args:"@);
    text::lemma_trim_fixed(args);
    text::lemma_trim_space(args);
    assert(args.subrange(0, 1) == "("@);
    assert(args.subrange(args.len() - 1, args.len() as int) == ")"@);
    assert(args.subrange(1, args.len() - 1) == list);
}

/// The name of `name: type`, with or without a space before it.
proof fn lemma_arg_name(name: Seq<char>, typ: Seq<char>)
    requires
        text::trim(name) == name,
        !name.contains(':'),
    ensures
        arg_name(name + ": "@ + typ) == name,
        arg_name(" "@ + (name + ": "@ + typ)) == name,
{
    reveal_strlit(": ");
    reveal_strlit(" ");
    let after = seq![' '] + typ;
    let spaced = " "@ + name;
    assert(name + ": "@ + typ == name + seq![':'] + after);
    assert(" "@ + (name + ": "@ + typ) == spaced + seq![':'] + after);
    assert(!spaced.contains(':')) by {
        assert forall|i: int| 0 <= i < spaced.len() implies spaced[i] != ':' by {
            if i > 0 {
                assert(spaced[i] == name[i - 1]);
            }
        }
    }
    text::lemma_split_char_add(name, ':', after);
    text::lemma_split_char_add(spaced, ':', after);
    text::lemma_split_char_none(name, ':');
    text::lemma_split_char_none(spaced, ':');
    text::lemma_trim_space(name);
}

/// Where no piece has an empty name, each gives its name.
proof fn lemma_all_names(pieces: Seq<Seq<char>>, names: Seq<Seq<char>>)
    requires
        pieces.len() == names.len(),
        forall|i: int|
            0 <= i < pieces.len() ==> arg_name(#[trigger] pieces[i]) == names[i] && names[i].len()
                > 0,
    ensures
        arg_names(pieces) == names,
    decreases pieces.len(),
{
    if pieces.len() > 0 {
        let p = pieces.drop_last();
        let n = names.drop_last();
        assert forall|i: int| 0 <= i < p.len() implies arg_name(#[trigger] p[i]) == n[i]
            && n[i].len() > 0 by {
            assert(p[i] == pieces[i]);
        }
        lemma_all_names(p, n);
        assert(arg_name(pieces[pieces.len() - 1]) == names[names.len() - 1]);
        assert(n.push(names.last()) == names);
    } else {
        assert(names == Seq::<Seq<char>>::empty());
    }
}

/// A field that a line of a record can spell: no colon in its name or its type, no
/// white space around them, nothing at the beginning of the name that would make
/// the line a comment or the end of the record, and no comma at the end of the type.
pub open spec fn spellable_field(field: FieldText) -> bool {
    &&& !field.name.contains(':')
    &&& !field.wit_type.contains(':')
    &&& text::trim(field.name) == field.name
    &&& text::trim(field.wit_type) == field.wit_type
    &&& !text::starts_with(field.name, "//"@)
    &&& !text::starts_with(field.name, "}"@)
    &&& !text::ends_with(field.wit_type, ","@)
}

/// A signature that a record can spell: the name of the function and the way to call
/// it hold no white space and can be told apart in the name of the record, and a
/// line can spell each field.
pub open spec fn spellable(signature: SignatureText) -> bool {
    let name = signature.function_name + "-signature-"@ + signature.attr_type;
    &&& forall|i: int| 0 <= i < name.len() ==> !text::is_space(name[i])
    &&& text::split(name, "-signature-"@) == seq![signature.function_name, signature.attr_type]
    &&& forall|i: int|
        0 <= i < signature.fields.len() ==> spellable_field(#[trigger] signature.fields[i])
}

/// A field as a line of a record writes it.
pub open spec fn written_field(field: FieldText) -> Seq<char> {
    field.name + ": "@ + field.wit_type + ","@
}

/// The lines are, but for the white space around them, the record of the signature.
pub open spec fn is_record_of(lines: Seq<Seq<char>>, signature: SignatureText) -> bool {
    let name = signature.function_name + "-signature-"@ + signature.attr_type;
    let n = signature.fields.len();
    &&& lines.len() == n + 2
    &&& text::trim(lines[0]) == "record "@ + name + " {"@
    &&& forall|i: int|
        0 <= i < n ==> text::trim(#[trigger] lines[i + 1]) == written_field(signature.fields[i])
    &&& text::starts_with(text::trim(lines.last()), "}"@)
}

/// Reading the record of a signature gives the signature back, together with the
/// comment that was pending; what follows is read with no comment pending.
pub proof fn law_signature_record(
    lines: Seq<Seq<char>>,
    signature: SignatureText,
    rest: Seq<Seq<char>>,
    pending: Option<Seq<char>>,
)
    requires
        spellable(signature),
        is_record_of(lines, signature),
    ensures
        definitions(lines + rest, pending).signatures == seq![
            SignatureText { args_comment: pending, ..signature },
        ] + definitions(rest, None).signatures,
        definitions(lines + rest, pending).types == definitions(rest, None).types,
{
    let n = signature.fields.len() as int;
    let all = lines + rest;
    let body = all.skip(1);
    let name = signature.function_name + "-signature-"@ + signature.attr_type;
    let line = text::trim(all[0]);
    lemma_record_line(signature);
    assert forall|k: int| 0 <= k < n implies !text::starts_with(
        text::trim(#[trigger] body[k]),
        "}"@,
    ) && line_field(body[k]) == Some(signature.fields[k]) by {
        assert(body[k] == lines[k + 1]);
        assert(spellable_field(signature.fields[k]));
        lemma_written_field(body[k], signature.fields[k]);
    }
    assert(body[n] == lines.last());
    lemma_body_length(body, n);
    assert(after_record(body) == rest);
    lemma_line_fields(body.take(n), signature.fields);
}

/// What the first line of a record says.
proof fn lemma_record_line(signature: SignatureText)
    requires
        spellable(signature),
    ensures
        ({
            let name = signature.function_name + "-signature-"@ + signature.attr_type;
            let line = "record "@ + name + " {"@;
            &&& text::starts_with(line, "record "@)
            &&& !text::starts_with(line, "variant "@)
            &&& !text::starts_with(line, "// args:"@)
            &&& text::contains(line, "-signature-"@)
            &&& defined_name(line, "record "@) == name
        }),
{
    let name = signature.function_name + "-signature-"@ + signature.attr_type;
    let line = "record "@ + name + " {"@;
    reveal_strlit("record ");
    reveal_strlit("variant ");
    reveal_strlit("// args:");
    reveal_strlit("-signature-");
    reveal_strlit(" {");
    let tail = name + " {"@;
    assert(line == "record "@ + tail);
    assert(line[0] == 'r');
    if text::starts_with(line, "variant "@) {
        assert(line.subrange(0, 8)[0] == 'v');
    }
    if text::starts_with(line, "// args:"@) {
        assert(line.subrange(0, 8)[0] == '/');
    }
    let at = 7 + signature.function_name.len() as int;
    assert(line.subrange(at, at + 11) == "-signature-"@);
    assert(text::occurs_at(line, "-signature-"@, at));
    assert(!text::starts_with(tail, "record "@)) by {
        if text::starts_with(tail, "record "@) {
            assert(tail.subrange(0, 7)[6] == tail[6]);
            assert(tail[6] == ' ');
            assert(name.len() >= 11);
            assert(tail[6] == name[6]);
            assert(text::is_space(name[6]));
        }
    }
    text::lemma_strip_prefix(tail, "record "@);
    assert(!text::ends_with(name, " {"@)) by {
        if text::ends_with(name, " {"@) {
            let k = name.len() - 2;
            assert(name.subrange(k, k + 2)[0] == name[k]);
            assert(text::is_space(name[k]));
        }
    }
    text::lemma_strip_suffix(name, " {"@);
    text::lemma_trim_fixed(name);
}

/// What a line with a field says.
proof fn lemma_written_field(line: Seq<char>, field: FieldText)
    requires
        spellable_field(field),
        text::trim(line) == written_field(field),
    ensures
        !text::starts_with(text::trim(line), "}"@),
        line_field(line) == Some(field),
{
    let l = written_field(field);
    reveal_strlit(": ");
    reveal_strlit(",");
    reveal_strlit(" ");
    reveal_strlit("//");
    reveal_strlit("}");
    let typ = field.wit_type + ","@;
    let after = " "@ + typ;
    assert(l == field.name + seq![':'] + after);
    assert(!text::starts_with(l, "}"@)) by {
        if text::starts_with(l, "}"@) {
            assert(l.subrange(0, 1)[0] == l[0]);
            if field.name.len() > 0 {
                assert(field.name.subrange(0, 1) == "}"@);
            }
        }
    }
    assert(!text::starts_with(l, "//"@)) by {
        if text::starts_with(l, "//"@) {
            assert(l.subrange(0, 2)[0] == l[0]);
            assert(l.subrange(0, 2)[1] == l[1]);
            if field.name.len() >= 2 {
                assert(field.name.subrange(0, 2) == "//"@);
            }
        }
    }
    assert(!after.contains(':')) by {
        assert forall|i: int| 0 <= i < after.len() implies after[i] != ':' by {
            if 0 < i < after.len() - 1 {
                assert(after[i] == field.wit_type[i - 1]);
            }
        }
    }
    text::lemma_split_char_add(field.name, ':', after);
    text::lemma_split_char_none(field.name, ':');
    text::lemma_split_char_none(after, ':');
    assert(text::split_char(l, ':') == seq![field.name, after]);
    text::lemma_trim_space(field.wit_type);
    assert(text::trim_start(field.wit_type) == field.wit_type);
    assert(!text::is_space(typ[0])) by {
        if field.wit_type.len() > 0 {
            text::lemma_trim_len(field.wit_type.skip(1));
        }
    }
    text::lemma_trim_fixed(typ);
    text::lemma_trim_space(typ);
    text::lemma_strip_suffix(field.wit_type, ","@);
}

/// The body of a record ends at the first line that closes it.
proof fn lemma_body_length(lines: Seq<Seq<char>>, n: int)
    requires
        0 <= n < lines.len(),
        forall|k: int|
            0 <= k < n ==> !text::starts_with(text::trim(#[trigger] lines[k]), "}"@),
        text::starts_with(text::trim(lines[n]), "}"@),
    ensures
        body_length(lines) == n,
    decreases n,
{
    if n > 0 {
        assert(!text::starts_with(text::trim(lines[0]), "}"@));
        let rest = lines.skip(1);
        assert forall|k: int| 0 <= k < n - 1 implies !text::starts_with(
            text::trim(#[trigger] rest[k]),
            "}"@,
        ) by {
            assert(rest[k] == lines[k + 1]);
        }
        lemma_body_length(rest, n - 1);
    }
}

/// Lines each of which defines a field define these fields.
proof fn lemma_line_fields(lines: Seq<Seq<char>>, fields: Seq<FieldText>)
    requires
        lines.len() == fields.len(),
        forall|k: int|
            0 <= k < lines.len() ==> line_field(#[trigger] lines[k]) == Some(fields[k]),
    ensures
        line_fields(lines) == fields,
    decreases lines.len(),
{
    if lines.len() > 0 {
        let l = lines.drop_last();
        let f = fields.drop_last();
        assert forall|k: int| 0 <= k < l.len() implies line_field(#[trigger] l[k]) == Some(
            f[k],
        ) by {
            assert(l[k] == lines[k]);
        }
        lemma_line_fields(l, f);
        assert(line_field(lines[lines.len() - 1]) == Some(fields.last()));
        assert(f.push(fields.last()) == fields);
    } else {
        assert(fields == Seq::<FieldText>::empty());
    }
}

// ---------------------------------------------------------------------------
// Laws on comments that name arguments
// ---------------------------------------------------------------------------

/// The comment that names the arguments of a list.
pub open spec fn args_comment_of(list: Seq<char>) -> Seq<char> {
    "// args: ("@ + list + ")"@
}

/// A comma outside all brackets separates the arguments before it from those after it.
pub proof fn law_args_add(a: Seq<char>, b: Seq<char>)
    requires
        wit_types::open_brackets(a) == 0,
    ensures
        comment_names(args_comment_of(a + seq![','] + b)) == comment_names(args_comment_of(a))
            + comment_names(args_comment_of(b)),
{
    lemma_args_list(a);
    lemma_args_list(b);
    lemma_args_list(a + seq![','] + b);
    wit_types::law_top_level_pieces(a, b);
    lemma_arg_names_add(wit_types::top_level_pieces(a), wit_types::top_level_pieces(b));
}

/// Names add up.
proof fn lemma_arg_names_add(a: Seq<Seq<char>>, b: Seq<Seq<char>>)
    ensures
        arg_names(a + b) == arg_names(a) + arg_names(b),
    decreases b.len(),
{
    if b.len() == 0 {
        assert(a + b == a);
        assert(arg_names(a) + Seq::<Seq<char>>::empty() == arg_names(a));
    } else {
        lemma_arg_names_add(a, b.drop_last());
        assert((a + b).drop_last() == a + b.drop_last());
        let name = arg_name(b.last());
        assert((arg_names(a) + arg_names(b.drop_last())).push(name) == arg_names(a) + arg_names(
            b.drop_last(),
        ).push(name));
    }
}

/// The name of one argument is what stands before its first colon, or all of it, without
/// the white space around it. An argument without a name gives none.
pub proof fn law_arg(name: Seq<char>, behind: Seq<char>)
    requires
        !name.contains(':'),
        behind.len() > 0 ==> behind[0] == ':',
        wit_types::top_level_pieces(name + behind) == seq![name + behind],
    ensures
        comment_names(args_comment_of(name + behind)) == if text::trim(name).len() == 0 {
            Seq::<Seq<char>>::empty()
        } else {
            seq![text::trim(name)]
        },
{
    let piece = name + behind;
    lemma_args_list(piece);
    if behind.len() == 0 {
        assert(piece == name);
        text::lemma_split_char_none(name, ':');
    } else {
        let after = behind.skip(1);
        assert(piece == name + seq![':'] + after);
        text::lemma_split_char_add(name, ':', after);
        text::lemma_split_char_none(name, ':');
    }
    assert(arg_name(piece) == text::trim(name));
    assert(seq![piece].drop_last() == Seq::<Seq<char>>::empty());
    assert(arg_names(seq![piece].drop_last()) == Seq::<Seq<char>>::empty());
}

/// A comment that names the arguments of a list, in any form: slashes or none, `args:`
/// once or more, and white space around them.
pub open spec fn is_args_comment(comment: Seq<char>, list: Seq<char>) -> bool {
    exists|a: Seq<char>, k: nat, b: Seq<char>, j: nat, c: Seq<char>, d: Seq<char>|
        text_laws::is_blank(a) && text_laws::is_blank(b) && text_laws::is_blank(c)
            && text_laws::is_blank(d) && j > 0 && comment == #[trigger] args_form(
            a,
            k,
            b,
            j,
            c,
            list,
            d,
        )
}

/// One form of a comment that names the arguments of a list.
pub open spec fn args_form(
    a: Seq<char>,
    k: nat,
    b: Seq<char>,
    j: nat,
    c: Seq<char>,
    list: Seq<char>,
    d: Seq<char>,
) -> Seq<char> {
    a + (text_laws::copies("//"@, k) + (b + (text_laws::copies("args:"@, j) + (c + ("("@ + list
        + ")"@))))) + d
}

/// Every form of a comment names the same arguments.
pub proof fn law_args_forms(comment: Seq<char>, list: Seq<char>)
    requires
        is_args_comment(comment, list),
    ensures
        comment_names(comment) == comment_names(args_comment_of(list)),
{
    let (a, k, b, j, c, d): (Seq<char>, nat, Seq<char>, nat, Seq<char>, Seq<char>) = choose|
        a: Seq<char>,
        k: nat,
        b: Seq<char>,
        j: nat,
        c: Seq<char>,
        d: Seq<char>,
    |
        text_laws::is_blank(a) && text_laws::is_blank(b) && text_laws::is_blank(c)
            && text_laws::is_blank(d) && j > 0 && comment == #[trigger] args_form(
            a,
            k,
            b,
            j,
            c,
            list,
            d,
        );
    reveal_strlit("//");
    reveal_strlit("args:");
    reveal_strlit("(");
    reveal_strlit(")");
    let none = Seq::<char>::empty();
    let args = "("@ + list + ")"@;
    let spaced = c + args;
    let body = text_laws::copies("args:"@, j) + spaced;
    let behind = b + body;
    let whole = text_laws::copies("//"@, k) + behind;
    assert(args.last() == ')');
    assert(spaced.last() == ')');
    assert(body.last() == ')');
    assert(behind.last() == ')');
    assert(text_laws::copies("args:"@, j)[0] == 'a');
    assert(body[0] == 'a');
    assert(!text::starts_with(behind, "//"@)) by {
        if text::starts_with(behind, "//"@) {
            assert(behind.subrange(0, 2)[0] == '/');
        }
    }
    text_laws::law_strip_copies("//"@, k, behind);
    if k == 0 {
        assert(whole == behind);
        assert forall|i: int| 0 <= i < (a + b).len() implies text::is_space(
            #[trigger] (a + b)[i],
        ) by {
            if i >= a.len() {
                assert((a + b)[i] == b[i - a.len()]);
            }
        }
        text_laws::law_trim_around(a + b, body, d);
        assert((a + b) + body + d == comment);
        assert(!text::starts_with(body, "//"@)) by {
            if text::starts_with(body, "//"@) {
                assert(body.subrange(0, 2)[0] == '/');
            }
        }
        text_laws::law_strip_prefixes(body, "//"@);
        text_laws::law_trim_around(none, body, none);
        assert(none + body + none == body);
    } else {
        assert(text_laws::copies("//"@, k)[0] == '/');
        assert(whole[0] == '/');
        assert(whole.last() == ')');
        text_laws::law_trim_around(a, whole, d);
        text_laws::law_trim_around(b, body, none);
        assert(b + body + none == behind);
    }
    assert(!text::starts_with(spaced, "args:"@)) by {
        if text::starts_with(spaced, "args:"@) {
            assert(spaced.subrange(0, 5)[0] == 'a');
        }
    }
    text_laws::law_strip_copies("args:"@, j, spaced);
    text_laws::law_trim_around(c, args, none);
    assert(c + args + none == spaced);
    assert(args.subrange(0, 1) == "("@);
    assert(args.subrange(args.len() - 1, args.len() as int) == ")"@);
    assert(args.subrange(1, args.len() - 1) == list);
    lemma_args_list(list);
}

/// A comment in no form that names arguments names none.
pub proof fn law_no_args(comment: Seq<char>)
    requires
        forall|list: Seq<char>| !is_args_comment(comment, list),
    ensures
        comment_names(comment) == Seq::<Seq<char>>::empty(),
{
    if let Some(list) = args_list(comment) {
        reveal_strlit("(");
        reveal_strlit(")");
        reveal_strlit("//");
        reveal_strlit("args:");
        let t = text::trim(comment);
        let s = text::strip_prefixes(t, "//"@);
        let body = text::trim(s);
        let r = text::strip_prefixes(body, "args:"@);
        let args = text::trim(r);
        text_laws::law_trim(comment);
        text_laws::law_trim(s);
        text_laws::law_trim(r);
        let k = text_laws::lemma_stripped_copies(t, "//"@);
        let j = text_laws::lemma_stripped_copies(body, "args:"@);
        let (a, d): (Seq<char>, Seq<char>) = choose|a: Seq<char>, d: Seq<char>|
            text_laws::is_blank(a) && text_laws::is_blank(d) && comment == #[trigger] (a + t + d);
        let (b, e): (Seq<char>, Seq<char>) = choose|b: Seq<char>, e: Seq<char>|
            text_laws::is_blank(b) && text_laws::is_blank(e) && s == #[trigger] (b + body + e);
        let (c, f): (Seq<char>, Seq<char>) = choose|c: Seq<char>, f: Seq<char>|
            text_laws::is_blank(c) && text_laws::is_blank(f) && r == #[trigger] (c + args + f);
        let end = f + e + d;
        assert(args.len() >= 2) by {
            assert(args.subrange(0, 1)[0] == '(');
            assert(args.subrange(args.len() - 1, args.len() as int)[0] == ')');
        }
        assert(args.subrange(0, 1)[0] == args[0]);
        assert(args.subrange(args.len() - 1, args.len() as int)[0] == args.last());
        assert(args == "("@ + list + ")"@);
        assert forall|i: int| 0 <= i < end.len() implies text::is_space(#[trigger] end[i]) by {
            if i < f.len() {
                assert(end[i] == f[i]);
            } else if i < f.len() + e.len() {
                assert(end[i] == e[i - f.len()]);
            } else {
                assert(end[i] == d[i - f.len() - e.len()]);
            }
        }
        assert(comment == args_form(a, k, b, j, c, list, end));
        assert(is_args_comment(comment, list));
    }
}

// ---------------------------------------------------------------------------
// Laws on the lines of a file
// ---------------------------------------------------------------------------

/// A line without the white space around it is a keyword with a name behind it, and maybe
/// an opening brace.
pub open spec fn gives_name(line: Seq<char>, keyword: Seq<char>, name: Seq<char>) -> bool {
    exists|i: nat, a: Seq<char>, b: Seq<char>, j: nat|
        is_name_behind(text::trim(line), keyword, i, a, name, b, j)
}

/// Copies of a keyword, a name with white space around it, and copies of a space with an
/// opening brace.
pub open spec fn is_name_behind(
    line: Seq<char>,
    keyword: Seq<char>,
    i: nat,
    a: Seq<char>,
    name: Seq<char>,
    b: Seq<char>,
    j: nat,
) -> bool {
    let inner = a + name + b;
    let tail = inner + text_laws::copies(" {"@, j);
    &&& i > 0
    &&& text_laws::is_blank(a)
    &&& text_laws::is_blank(b)
    &&& text_laws::is_tight(name)
    &&& !text::ends_with(inner, " {"@)
    &&& !text::starts_with(tail, keyword)
    &&& line == text_laws::copies(keyword, i) + tail
}

/// What a line that gives a name gives.
proof fn lemma_gives_name(line: Seq<char>, keyword: Seq<char>, name: Seq<char>)
    requires
        gives_name(line, keyword, name),
        keyword.len() > 0,
    ensures
        text::starts_with(text::trim(line), keyword),
        defined_name(text::trim(line), keyword) == name,
{
    let l = text::trim(line);
    let (i, a, b, j): (nat, Seq<char>, Seq<char>, nat) = choose|
        i: nat,
        a: Seq<char>,
        b: Seq<char>,
        j: nat,
    | is_name_behind(l, keyword, i, a, name, b, j);
    reveal_strlit(" {");
    let inner = a + name + b;
    text_laws::law_strip_copies(keyword, i, inner + text_laws::copies(" {"@, j));
    text_laws::law_strip_copies_behind(inner, " {"@, j);
    text_laws::law_trim_around(a, name, b);
}

/// The keywords end with a space and hold no other.
proof fn reveal_keywords()
    ensures
        "record "@.len() == 7 && "record "@.last() == ' ' && "record "@[0] == 'r',
        text_laws::is_word("record "@.drop_last()),
        "variant "@.len() == 8 && "variant "@.last() == ' ' && "variant "@[0] == 'v',
        text_laws::is_word("variant "@.drop_last()),
        "// args:"@.len() == 8 && "// args:"@[0] == '/',
{
    reveal_strlit("record ");
    reveal_strlit("variant ");
    reveal_strlit("// args:");
}

/// A line begins with one keyword at most.
proof fn lemma_one_keyword(line: Seq<char>)
    ensures
        text::starts_with(line, "record "@) ==> line.len() > 0 && line[0] == 'r',
        text::starts_with(line, "variant "@) ==> line.len() > 0 && line[0] == 'v',
        text::starts_with(line, "// args:"@) ==> line.len() > 0 && line[0] == '/',
{
    reveal_keywords();
    if text::starts_with(line, "record "@) {
        assert(line.subrange(0, 7)[0] == line[0]);
    }
    if text::starts_with(line, "variant "@) {
        assert(line.subrange(0, 8)[0] == line[0]);
    }
    if text::starts_with(line, "// args:"@) {
        assert(line.subrange(0, 8)[0] == line[0]);
    }
}

/// No lines define nothing. A line that is no record, no variant and no comment that
/// names arguments defines nothing, and a comment that does is kept for the next
/// signature in place of an earlier one.
pub proof fn law_plain_line(line: Seq<char>, rest: Seq<Seq<char>>, pending: Option<Seq<char>>)
    ensures
        definitions(Seq::empty(), pending).signatures == Seq::<SignatureText>::empty(),
        definitions(Seq::empty(), pending).types == Seq::<Seq<char>>::empty(),
        !text::starts_with(text::trim(line), "record "@) && !text::starts_with(
            text::trim(line),
            "variant "@,
        ) && !text::starts_with(text::trim(line), "// args:"@) ==> definitions(
            seq![line] + rest,
            pending,
        ) == definitions(rest, pending),
        text::starts_with(text::trim(line), "// args:"@) ==> definitions(
            seq![line] + rest,
            pending,
        ) == definitions(rest, Some(text::trim(line))),
{
    assert((seq![line] + rest).skip(1) == rest);
    lemma_one_keyword(text::trim(line));
}

/// A record whose name is not that of a signature, and a variant, is a type with the name
/// that the line gives; it changes nothing else.
pub proof fn law_type_line(
    line: Seq<char>,
    name: Seq<char>,
    rest: Seq<Seq<char>>,
    pending: Option<Seq<char>>,
)
    requires
        (gives_name(line, "record "@, name) && !text::contains(text::trim(line), "-signature-"@))
            || gives_name(line, "variant "@, name),
    ensures
        definitions(seq![line] + rest, pending).types == seq![name] + definitions(
            rest,
            pending,
        ).types,
        definitions(seq![line] + rest, pending).signatures == definitions(
            rest,
            pending,
        ).signatures,
{
    assert((seq![line] + rest).skip(1) == rest);
    reveal_keywords();
    lemma_one_keyword(text::trim(line));
    if gives_name(line, "variant "@, name) {
        lemma_gives_name(line, "variant "@, name);
    } else {
        lemma_gives_name(line, "record "@, name);
    }
}

/// A record whose name holds `-signature-` not exactly once is passed over.
pub proof fn law_odd_record(
    line: Seq<char>,
    name: Seq<char>,
    rest: Seq<Seq<char>>,
    pending: Option<Seq<char>>,
)
    requires
        gives_name(line, "record "@, name),
        text::contains(text::trim(line), "-signature-"@),
        text::split(name, "-signature-"@).len() != 2,
    ensures
        definitions(seq![line] + rest, pending) == definitions(rest, pending),
{
    assert((seq![line] + rest).skip(1) == rest);
    reveal_keywords();
    lemma_one_keyword(text::trim(line));
    lemma_gives_name(line, "record "@, name);
}

/// No line of the body closes the record.
pub open spec fn is_body(body: Seq<Seq<char>>) -> bool {
    forall|i: int|
        0 <= i < body.len() ==> !text::starts_with(text::trim(#[trigger] body[i]), "}"@)
}

/// A line, or the end of the file, that closes a record.
pub open spec fn is_end(end: Seq<Seq<char>>, rest: Seq<Seq<char>>) -> bool {
    ||| end.len() == 0 && rest.len() == 0
    ||| end.len() == 1 && text::starts_with(text::trim(end[0]), "}"@)
}

/// The record of a signature gives the signature: the name of the function and the way to
/// call it from the name of the record, the fields from the lines up to the first that
/// begins with a closing brace or to the end of the file, and the comment that was kept.
/// What follows is read with no comment kept.
pub proof fn law_signature(
    head: Seq<char>,
    function_name: Seq<char>,
    attr_type: Seq<char>,
    body: Seq<Seq<char>>,
    end: Seq<Seq<char>>,
    rest: Seq<Seq<char>>,
    pending: Option<Seq<char>>,
)
    requires
        gives_name(head, "record "@, function_name + "-signature-"@ + attr_type),
        !text::contains(function_name + "-signature-"@.drop_last(), "-signature-"@),
        !text::contains(attr_type, "-signature-"@),
        is_body(body),
        is_end(end, rest),
    ensures
        ({
            let d = definitions(seq![head] + body + end + rest, pending);
            let after = definitions(rest, None);
            &&& d.types == after.types
            &&& d.signatures == seq![
                SignatureText {
                    function_name,
                    attr_type,
                    fields: line_fields(body),
                    args_comment: pending,
                },
            ] + after.signatures
        }),
{
    let name = function_name + "-signature-"@ + attr_type;
    let lines = seq![head] + body + end + rest;
    let below = body + end + rest;
    let line = text::trim(head);
    assert(lines.skip(1) == below);
    assert(lines[0] == head);
    reveal_keywords();
    reveal_strlit("-signature-");
    lemma_one_keyword(line);
    lemma_gives_name(head, "record "@, name);
    text_laws::law_split(function_name, "-signature-"@, attr_type);
    text_laws::law_split(attr_type, "-signature-"@, Seq::empty());
    assert(text::split(name, "-signature-"@) == seq![function_name, attr_type]);
    lemma_signature_inside(head, function_name, attr_type);
    lemma_body_end(body, end, rest);
}

/// The name of a signature stands in the line that gives it.
proof fn lemma_signature_inside(head: Seq<char>, function_name: Seq<char>, attr_type: Seq<char>)
    requires
        gives_name(head, "record "@, function_name + "-signature-"@ + attr_type),
    ensures
        text::contains(text::trim(head), "-signature-"@),
{
    let name = function_name + "-signature-"@ + attr_type;
    let l = text::trim(head);
    let (i, a, b, j): (nat, Seq<char>, Seq<char>, nat) = choose|
        i: nat,
        a: Seq<char>,
        b: Seq<char>,
        j: nat,
    | is_name_behind(l, "record "@, i, a, name, b, j);
    let front = text_laws::copies("record "@, i) + a + function_name;
    text_laws::law_contains(l, "-signature-"@);
    assert(l == front + "-signature-"@ + (attr_type + b + text_laws::copies(" {"@, j)));
}

/// Where the body of a record ends.
proof fn lemma_body_end(body: Seq<Seq<char>>, end: Seq<Seq<char>>, rest: Seq<Seq<char>>)
    requires
        is_body(body),
        is_end(end, rest),
    ensures
        body_length(body + end + rest) == body.len(),
        (body + end + rest).take(body.len() as int) == body,
        after_record(body + end + rest) == rest,
    decreases body.len(),
{
    let all = body + end + rest;
    if body.len() == 0 {
        if end.len() == 0 {
            assert(all.len() == 0);
            assert(rest == Seq::<Seq<char>>::empty());
        } else {
            assert(all[0] == end[0]);
            assert(all.skip(1) == rest);
        }
    } else {
        let below = body.skip(1);
        assert forall|i: int| 0 <= i < below.len() implies !text::starts_with(
            text::trim(#[trigger] below[i]),
            "}"@,
        ) by {
            assert(below[i] == body[i + 1]);
        }
        lemma_body_end(below, end, rest);
        assert(all.skip(1) == below + end + rest);
        assert(all[0] == body[0]);
        let n = body.len() as int;
        if end.len() == 0 {
            assert(all.len() == n);
            assert(rest == Seq::<Seq<char>>::empty());
        } else {
            assert(all.skip(n + 1) == rest);
        }
    }
    assert(all.take(body.len() as int) == body);
}

/// The fields of two parts of a body are those of the first and those of the second.
pub proof fn law_line_fields(a: Seq<Seq<char>>, b: Seq<Seq<char>>)
    ensures
        line_fields(a + b) == line_fields(a) + line_fields(b),
    decreases b.len(),
{
    if b.len() == 0 {
        assert(a + b == a);
        assert(line_fields(a) + Seq::<FieldText>::empty() == line_fields(a));
    } else {
        law_line_fields(a, b.drop_last());
        assert((a + b).drop_last() == a + b.drop_last());
        if let Some(field) = line_field(b.last()) {
            assert((line_fields(a) + line_fields(b.drop_last())).push(field) == line_fields(a)
                + line_fields(b.drop_last()).push(field));
        }
    }
}

/// A line with one colon is a field: its name stands before the colon and its type behind
/// it, without the white space around them and without commas at the end of the type. A
/// line with no colon or with several, an empty line and a comment are no field, whatever
/// the comment says.
pub proof fn law_line_field(
    line: Seq<char>,
    name: Seq<char>,
    typ: Seq<char>,
    more: Seq<char>,
)
    requires
        !name.contains(':'),
        !typ.contains(':'),
    ensures
        text::trim(line) == name ==> line_fields(seq![line]) == Seq::<FieldText>::empty(),
        text::trim(line) == name + seq![':'] + typ && !text::starts_with(text::trim(line), "//"@)
            ==> line_fields(seq![line]) == seq![
            FieldText {
                name: text::trim(name),
                wit_type: text::strip_suffixes(text::trim(typ), ","@),
            },
        ],
        text::trim(line) == name + seq![':'] + typ + seq![':'] + more ==> line_fields(seq![line])
            == Seq::<FieldText>::empty(),
        text::starts_with(text::trim(line), "//"@) ==> line_fields(seq![line]) == Seq::<
            FieldText,
        >::empty(),
{
    let l = text::trim(line);
    let none = Seq::<FieldText>::empty();
    assert(seq![line].drop_last() == Seq::<Seq<char>>::empty());
    assert(line_fields(seq![line].drop_last()) == none);
    text::lemma_split_char_none(name, ':');
    text::lemma_split_char_none(typ, ':');
    if l == name + seq![':'] + typ {
        text::lemma_split_char_add(name, ':', typ);
        assert(text::split_char(l, ':') == seq![name, typ]);
        if !text::starts_with(l, "//"@) {
            let field = FieldText {
                name: text::trim(name),
                wit_type: text::strip_suffixes(text::trim(typ), ","@),
            };
            assert(line_field(line) == Some(field));
            assert(none.push(field) == seq![field]);
        }
    }
    if l == name + seq![':'] + typ + seq![':'] + more {
        text::lemma_split_char_add(name + seq![':'] + typ, ':', more);
        text::lemma_split_char_add(name, ':', typ);
        text::lemma_split_char_pieces(more, ':');
        assert(text::split_char(l, ':').len() > 2);
    }
}

/// A comment or an empty line anywhere in the body of a signature record changes nothing
/// of what is read.
pub proof fn law_comment_in_record(
    head: Seq<char>,
    function_name: Seq<char>,
    attr_type: Seq<char>,
    a: Seq<Seq<char>>,
    comment: Seq<char>,
    b: Seq<Seq<char>>,
    end: Seq<Seq<char>>,
    rest: Seq<Seq<char>>,
    pending: Option<Seq<char>>,
)
    requires
        gives_name(head, "record "@, function_name + "-signature-"@ + attr_type),
        !text::contains(function_name + "-signature-"@.drop_last(), "-signature-"@),
        !text::contains(attr_type, "-signature-"@),
        is_body(a),
        is_body(b),
        text::starts_with(text::trim(comment), "//"@) || text::trim(comment).len() == 0,
        is_end(end, rest),
    ensures
        ({
            let with = definitions(seq![head] + (a + seq![comment] + b) + end + rest, pending);
            let without = definitions(seq![head] + (a + b) + end + rest, pending);
            with.signatures == without.signatures && with.types == without.types
        }),
{
    let one = seq![comment];
    let l = text::trim(comment);
    reveal_strlit("//");
    reveal_strlit("}");
    assert(!text::starts_with(l, "}"@)) by {
        if text::starts_with(l, "}"@) {
            assert(l.subrange(0, 1)[0] == l[0]);
            assert(l.subrange(0, 2)[0] == l[0]);
        }
    }
    assert forall|i: int| 0 <= i < (a + one + b).len() implies !text::starts_with(
        text::trim(#[trigger] (a + one + b)[i]),
        "}"@,
    ) by {
        if i < a.len() {
            assert((a + one + b)[i] == a[i]);
        } else if i == a.len() {
            assert((a + one + b)[i] == comment);
        } else {
            assert((a + one + b)[i] == b[i - a.len() - 1]);
        }
    }
    assert forall|i: int| 0 <= i < (a + b).len() implies !text::starts_with(
        text::trim(#[trigger] (a + b)[i]),
        "}"@,
    ) by {
        if i < a.len() {
            assert((a + b)[i] == a[i]);
        } else {
            assert((a + b)[i] == b[i - a.len()]);
        }
    }
    let none = Seq::<char>::empty();
    if l.len() == 0 {
        assert(l == none);
    }
    law_line_field(comment, none, none, none);
    law_line_fields(a, one);
    law_line_fields(a + one, b);
    law_line_fields(a, b);
    assert(line_fields(a) + Seq::<FieldText>::empty() == line_fields(a));
    law_signature(head, function_name, attr_type, a + one + b, end, rest, pending);
    law_signature(head, function_name, attr_type, a + b, end, rest, pending);
}

} // verus!
