//! The Rust functions that call the remote functions.

use crate::naming;
use crate::signature;
use crate::signature::{FieldText, SignatureField, SignatureStruct, SignatureText};
use crate::strings;
use crate::text;
use crate::text_laws;
use crate::wit_types;
use vstd::prelude::*;
use vstd::string::*;

verus! {

// ---------------------------------------------------------------------------
// What a signature says about a call
// ---------------------------------------------------------------------------

/// What the fields of a signature say about a call.
#[verifier::ext_equal]
pub struct CallText {
    /// The type of the target, empty if there is none.
    pub target: Seq<char>,
    /// The parameters, each as `name: type`.
    pub params: Seq<Seq<char>>,
    /// The names of the parameters.
    pub names: Seq<Seq<char>>,
    /// The returned type.
    pub returns: Seq<char>,
}

/// The name of the argument at position `i`: the one that the comment gives, or a
/// numbered one.
pub open spec fn param_name(arg_names: Seq<Seq<char>>, i: int) -> Seq<char> {
    if i < arg_names.len() {
        arg_names[i]
    } else {
        "arg"@ + text::decimal(i as nat)
    }
}

/// The names of the first `n` arguments.
pub open spec fn param_names(arg_names: Seq<Seq<char>>, n: nat) -> Seq<Seq<char>> {
    Seq::new(n, |i: int| param_name(arg_names, i))
}

/// The arguments as parameters, each as `name: type`.
pub open spec fn typed_params(
    arg_names: Seq<Seq<char>>,
    wit_types: Seq<Seq<char>>,
) -> Seq<Seq<char>> {
    Seq::new(
        wit_types.len(),
        |i: int| param_name(arg_names, i) + ": "@ + wit_types::rust_type(wit_types[i]),
    )
}

/// What the fields say about a call whose arguments have the given names.
pub open spec fn call_text(fields: Seq<FieldText>, arg_names: Seq<Seq<char>>) -> CallText
    decreases fields.len(),
{
    if fields.len() == 0 {
        CallText {
            target: Seq::empty(),
            params: Seq::empty(),
            names: Seq::empty(),
            returns: "()"@,
        }
    } else {
        let call = call_text(fields.drop_last(), arg_names);
        let field = fields.last();
        if field.name == "target"@ {
            CallText {
                target: if field.wit_type == "string"@ {
                    "&str"@
                } else {
                    "&ProcessAddress"@
                },
                ..call
            }
        } else if field.name == "returning"@ {
            CallText { returns: wit_types::rust_type(field.wit_type), ..call }
        } else if field.name == "arg-types"@ {
            let types = wit_types::tuple_types(field.wit_type);
            CallText {
                params: call.params + typed_params(arg_names, types),
                names: call.names + param_names(arg_names, types.len()),
                ..call
            }
        } else {
            let name = naming::snake_case(field.name);
            CallText {
                params: call.params.push(name + ": "@ + wit_types::rust_type(field.wit_type)),
                names: call.names.push(name),
                ..call
            }
        }
    }
}

/// Each name in snake case.
pub open spec fn all_snake_case(names: Seq<Seq<char>>) -> Seq<Seq<char>> {
    Seq::new(names.len(), |i: int| naming::snake_case(names[i]))
}

/// The argument names that the comment of a signature gives, in snake case.
pub open spec fn signature_arg_names(signature: SignatureText) -> Seq<Seq<char>> {
    match signature.args_comment {
        Some(comment) => all_snake_case(signature::comment_names(comment)),
        None => Seq::empty(),
    }
}

/// What the signature says about a call.
pub open spec fn signature_call(signature: SignatureText) -> CallText {
    call_text(signature.fields, signature_arg_names(signature))
}

/// The types in a signature can be converted.
pub open spec fn signature_convertible(signature: SignatureText) -> bool {
    forall|i: int|
        0 <= i < signature.fields.len() ==> wit_types::convertible(
            (#[trigger] signature.fields[i]).wit_type,
        )
}

// ---------------------------------------------------------------------------
// The text of a stub
// ---------------------------------------------------------------------------

/// The name of the function that calls the remote function.
pub open spec fn stub_name(signature: SignatureText) -> Seq<char> {
    naming::snake_case(signature.function_name) + "_"@ + signature.attr_type + "_rpc"@
}

/// The parameter list: the target, if there is one, before the others.
pub open spec fn param_list(call: CallText) -> Seq<char> {
    if call.target.len() == 0 {
        text::join(call.params, ", "@)
    } else if call.params.len() == 0 {
        "target: "@ + call.target
    } else {
        "target: "@ + call.target + ", "@ + text::join(call.params, ", "@)
    }
}

/// The expression for the body of the request: the function in Pascal case, with
/// nothing, the only argument or the tuple of the arguments.
pub open spec fn json_text(function_name: Seq<char>, names: Seq<Seq<char>>) -> Seq<char> {
    let head = "json!({\""@ + naming::pascal_case(function_name);
    if names.len() == 0 {
        head + "\" : null})"@
    } else if names.len() == 1 {
        head + "\": "@ + names[0] + "})"@
    } else {
        head + "\": ("@ + text::join(names, ", "@) + ")})"@
    }
}

/// The function that calls the remote function.
pub open spec fn stub_text(signature: SignatureText) -> Seq<char> {
    let call = signature_call(signature);
    "/// Generated stub for `"@ + signature.function_name + "` "@ + signature.attr_type
        + " RPC call\npub async fn "@ + stub_name(signature) + "("@ + param_list(call)
        + ") -> Result<"@ + call.returns + ", AppSendError> {\n    let body = "@ + json_text(
        signature.function_name,
        call.names,
    )
        + ";\n    let body = serde_json::to_vec(&body).unwrap();\n    let request = Request::to(target)\n        .body(body);\n    send::<"@
        + call.returns + ">(request).await\n}"@
}

/// The stubs for the signatures, without those for HTTP endpoints.
pub open spec fn module_text(signatures: Seq<SignatureText>) -> Seq<char>
    decreases signatures.len(),
{
    if signatures.len() == 0 {
        Seq::empty()
    } else {
        let before = module_text(signatures.drop_last());
        if signatures.last().attr_type == "http"@ {
            before
        } else {
            before + stub_text(signatures.last()) + "\n\n"@
        }
    }
}

// ---------------------------------------------------------------------------
// Generating
// ---------------------------------------------------------------------------

/// What the fields of a signature say about a call.
struct Call {
    target: String,
    params: Vec<String>,
    names: Vec<String>,
    returns: String,
}

impl Call {
    /// The call says what `said` states.
    spec fn says(&self, said: CallText) -> bool {
        &&& self.target@ == said.target
        &&& text::texts(self.params@) == said.params
        &&& text::texts(self.names@) == said.names
        &&& self.returns@ == said.returns
    }
}

/// Whether the types in a signature can be converted.
pub fn is_signature_convertible(signature: &SignatureStruct) -> (r: bool)
    ensures
        r == signature_convertible(signature@),
{
    let mut good = true;
    let mut i: usize = 0;
    while i < signature.fields.len()
        invariant
            i <= signature.fields.len(),
            good == (forall|k: int|
                0 <= k < i ==> wit_types::convertible(
                    (#[trigger] signature@.fields[k]).wit_type,
                )),
        decreases signature.fields.len() - i,
    {
        assert(signature@.fields[i as int] == signature.fields@[i as int]@);
        let g = wit_types::is_convertible(signature.fields[i].wit_type.as_str());
        good = good && g;
        i = i + 1;
    }
    good
}

/// The argument names that the comment of a signature gives, in snake case.
fn arg_names_of(signature: &SignatureStruct) -> (r: Vec<String>)
    ensures
        text::texts(r@) == signature_arg_names(signature@),
{
    let mut out: Vec<String> = Vec::new();
    assert(text::texts(out@) == Seq::<Seq<char>>::empty());
    if let Some(comment) = &signature.args_comment {
        let names = signature::parse_args_comment(comment.as_str());
        let ghost all = all_snake_case(text::texts(names@));
        let mut i: usize = 0;
        while i < names.len()
            invariant
                i <= names.len(),
                all == all_snake_case(text::texts(names@)),
                text::texts(out@) == all.take(i as int),
            decreases names.len() - i,
        {
            let ghost before = text::texts(out@);
            out.push(naming::to_snake_case(names[i].as_str()));
            assert(text::texts(out@) == before.push(all[i as int]));
            i = i + 1;
        }
        assert(all.take(all.len() as int) == all);
    }
    out
}

/// Appends the elements of the tuple type as parameters.
fn add_tuple_params(call: &mut Call, arg_names: &Vec<String>, types: &Vec<String>)
    requires
        forall|k: int|
            0 <= k < types@.len() ==> wit_types::convertible((#[trigger] types@[k])@),
    ensures
        final(call).target == old(call).target,
        final(call).returns == old(call).returns,
        text::texts(final(call).params@) == text::texts(old(call).params@) + typed_params(
            text::texts(arg_names@),
            text::texts(types@),
        ),
        text::texts(final(call).names@) == text::texts(old(call).names@) + param_names(
            text::texts(arg_names@),
            types@.len(),
        ),
{
    let ghost names = text::texts(arg_names@);
    let ghost params = typed_params(names, text::texts(types@));
    let ghost all_names = param_names(names, types@.len());
    let mut i: usize = 0;
    assert(text::texts(call.params@) + params.take(0) == text::texts(call.params@));
    assert(text::texts(call.names@) + all_names.take(0) == text::texts(call.names@));
    while i < types.len()
        invariant
            i <= types.len(),
            names == text::texts(arg_names@),
            params == typed_params(names, text::texts(types@)),
            all_names == param_names(names, types@.len()),
            forall|k: int|
                0 <= k < types@.len() ==> wit_types::convertible((#[trigger] types@[k])@),
            call.target == old(call).target,
            call.returns == old(call).returns,
            text::texts(call.params@) == text::texts(old(call).params@) + params.take(i as int),
            text::texts(call.names@) == text::texts(old(call).names@) + all_names.take(i as int),
        decreases types.len() - i,
    {
        let ghost params_before = text::texts(call.params@);
        let ghost names_before = text::texts(call.names@);
        let name: String = if i < arg_names.len() {
            arg_names[i].clone()
        } else {
            let mut numbered = "arg".to_string();
            numbered.append(strings::decimal(i).as_str());
            numbered
        };
        assert(name@ == all_names[i as int]);
        let mut param = name.clone();
        param.append(": ");
        param.append(wit_types::wit_type_to_rust(types[i].as_str()).as_str());
        assert(param@ == params[i as int]);
        call.params.push(param);
        call.names.push(name);
        proof {
            assert(text::texts(call.params@) == params_before.push(params[i as int]));
            assert(text::texts(call.names@) == names_before.push(all_names[i as int]));
            assert(params.take(i + 1) == params.take(i as int).push(params[i as int]));
            assert(all_names.take(i + 1) == all_names.take(i as int).push(all_names[i as int]));
        }
        i = i + 1;
    }
    assert(params.take(params.len() as int) == params);
    assert(all_names.take(all_names.len() as int) == all_names);
}

/// Reads what the fields of a signature say about a call.
fn read_call(signature: &SignatureStruct) -> (r: Call)
    requires
        signature_convertible(signature@),
    ensures
        r.says(signature_call(signature@)),
{
    let arg_names = arg_names_of(signature);
    let ghost names = signature_arg_names(signature@);
    let ghost fields = signature@.fields;
    let mut call = Call {
        target: String::new(),
        params: Vec::new(),
        names: Vec::new(),
        returns: "()".to_string(),
    };
    let mut i: usize = 0;
    proof {
        assert(text::texts(call.params@) == Seq::<Seq<char>>::empty());
        assert(text::texts(call.names@) == Seq::<Seq<char>>::empty());
        assert(fields.take(0) == Seq::<FieldText>::empty());
    }
    while i < signature.fields.len()
        invariant
            i <= signature.fields.len(),
            fields == signature@.fields,
            fields == signature::field_texts(signature.fields@),
            names == text::texts(arg_names@),
            signature_convertible(signature@),
            call.says(call_text(fields.take(i as int), names)),
        decreases signature.fields.len() - i,
    {
        let field = &signature.fields[i];
        let ghost before = call_text(fields.take(i as int), names);
        proof {
            assert(fields[i as int] == field@);
            assert(wit_types::convertible(signature@.fields[i as int].wit_type));
            wit_types::lemma_convertible_elements(field.wit_type@);
            assert(fields.take(i + 1).drop_last() == fields.take(i as int));
        }
        let rust_type = wit_types::wit_type_to_rust(field.wit_type.as_str());
        if strings::same(field.name.as_str(), "target") {
            if strings::same(field.wit_type.as_str(), "string") {
                call.target = "&str".to_string();
            } else {
                call.target = "&ProcessAddress".to_string();
            }
        } else if strings::same(field.name.as_str(), "returning") {
            call.returns = rust_type;
        } else if strings::same(field.name.as_str(), "arg-types") {
            let types = wit_types::parse_tuple_types(field.wit_type.as_str());
            proof {
                let all = wit_types::tuple_types(field.wit_type@);
                assert forall|k: int| 0 <= k < types@.len() implies wit_types::convertible(
                    (#[trigger] types@[k])@,
                ) by {
                    assert(all[k] == types@[k]@);
                    assert(wit_types::convertible(wit_types::tuple_types(field@.wit_type)[k]));
                }
                assert(all.len() == types@.len());
            }
            add_tuple_params(&mut call, &arg_names, &types);
        } else {
            let name = naming::to_snake_case(field.name.as_str());
            let mut param = name.clone();
            param.append(": ");
            param.append(rust_type.as_str());
            let ghost said_name = name@;
            let ghost said_param = param@;
            call.params.push(param);
            call.names.push(name);
            assert(text::texts(call.params@) == before.params.push(said_param));
            assert(text::texts(call.names@) == before.names.push(said_name));
        }
        i = i + 1;
    }
    assert(fields.take(fields.len() as int) == fields);
    call
}

/// The expression for the body of the request.
fn json_for(function_name: &str, names: &Vec<String>) -> (r: String)
    ensures
        r@ == json_text(function_name@, text::texts(names@)),
{
    let mut out = "json!({\"".to_string();
    out.append(naming::to_pascal_case(function_name).as_str());
    if names.len() == 0 {
        out.append("\" : null})");
    } else if names.len() == 1 {
        out.append("\": ");
        out.append(names[0].as_str());
        out.append("})");
    } else {
        out.append("\": (");
        out.append(strings::join(names, ", ").as_str());
        out.append(")})");
    }
    out
}

/// The parameter list.
fn params_for(call: &Call) -> (r: String)
    ensures
        forall|said: CallText| call.says(said) ==> r@ == #[trigger] param_list(said),
{
    if call.target.as_str().is_empty() {
        return strings::join(&call.params, ", ");
    }
    let mut out = "target: ".to_string();
    out.append(call.target.as_str());
    if call.params.len() > 0 {
        out.append(", ");
        out.append(strings::join(&call.params, ", ").as_str());
    }
    out
}

/// Generates the asynchronous Rust function for a signature. There is none for an
/// HTTP endpoint.
pub fn generate_async_function(signature: &SignatureStruct) -> (r: Option<String>)
    requires
        signature_convertible(signature@),
    ensures
        match r {
            Some(stub) => signature@.attr_type != "http"@ && stub@ == stub_text(signature@),
            None => signature@.attr_type == "http"@,
        },
{
    let call = read_call(signature);
    if strings::same(signature.attr_type.as_str(), "http") {
        return None;
    }
    let mut out = "/// Generated stub for `".to_string();
    out.append(signature.function_name.as_str());
    out.append("` ");
    out.append(signature.attr_type.as_str());
    out.append(" RPC call\npub async fn ");
    let mut name = naming::to_snake_case(signature.function_name.as_str());
    name.append("_");
    name.append(signature.attr_type.as_str());
    name.append("_rpc");
    out.append(name.as_str());
    out.append("(");
    out.append(params_for(&call).as_str());
    out.append(") -> Result<");
    out.append(call.returns.as_str());
    out.append(", AppSendError> {\n    let body = ");
    out.append(json_for(signature.function_name.as_str(), &call.names).as_str());
    out.append(
        ";\n    let body = serde_json::to_vec(&body).unwrap();\n    let request = Request::to(target)\n        .body(body);\n    send::<",
    );
    out.append(call.returns.as_str());
    out.append(">(request).await\n}");
    Some(out)
}

/// Generates the functions for the signatures of an interface.
pub fn generate_module(signatures: &Vec<SignatureStruct>) -> (r: String)
    requires
        forall|i: int|
            0 <= i < signatures@.len() ==> signature_convertible((#[trigger] signatures@[i])@),
    ensures
        r@ == module_text(signature::signature_texts(signatures@)),
{
    let ghost all = signature::signature_texts(signatures@);
    let mut out = String::new();
    let mut i: usize = 0;
    while i < signatures.len()
        invariant
            i <= signatures.len(),
            all == signature::signature_texts(signatures@),
            forall|k: int|
                0 <= k < signatures@.len() ==> signature_convertible((#[trigger] signatures@[k])@),
            out@ == module_text(all.take(i as int)),
        decreases signatures.len() - i,
    {
        assert(all.take(i + 1).drop_last() == all.take(i as int));
        if let Some(stub) = generate_async_function(&signatures[i]) {
            out.append(stub.as_str());
            out.append("\n\n");
        }
        i = i + 1;
    }
    assert(all.take(all.len() as int) == all);
    out
}

// ---------------------------------------------------------------------------
// Laws
// ---------------------------------------------------------------------------

/// There is a name for each parameter, and the parameter begins with it.
pub proof fn law_params_have_names(fields: Seq<FieldText>, arg_names: Seq<Seq<char>>)
    ensures
        ({
            let call = call_text(fields, arg_names);
            &&& call.params.len() == call.names.len()
            &&& forall|i: int|
                0 <= i < call.params.len() ==> text::starts_with(
                    #[trigger] call.params[i],
                    call.names[i] + ": "@,
                )
        }),
    decreases fields.len(),
{
    if fields.len() > 0 {
        law_params_have_names(fields.drop_last(), arg_names);
        let before = call_text(fields.drop_last(), arg_names);
        let call = call_text(fields, arg_names);
        assert forall|i: int| 0 <= i < call.params.len() implies text::starts_with(
            #[trigger] call.params[i],
            call.names[i] + ": "@,
        ) by {
            let p = call.names[i] + ": "@;
            if i < before.params.len() {
                assert(call.params[i] == before.params[i]);
                assert(call.names[i] == before.names[i]);
            } else {
                assert(call.params[i].subrange(0, p.len() as int) == p);
            }
        }
    }
}

/// One of the fields has the name `name`.
pub open spec fn has_field(fields: Seq<FieldText>, name: Seq<char>) -> bool {
    exists|i: int| 0 <= i < fields.len() && (#[trigger] fields[i]).name == name
}

/// If a field is the target, it is the first parameter, and without one the parameter
/// list is that of the others.
pub proof fn law_target_first(fields: Seq<FieldText>, arg_names: Seq<Seq<char>>)
    ensures
        ({
            let call = call_text(fields, arg_names);
            &&& has_field(fields, "target"@) ==> text::starts_with(
                param_list(call),
                "target: "@ + call.target,
            ) && (call.target == "&str"@ || call.target == "&ProcessAddress"@)
            &&& !has_field(fields, "target"@) ==> param_list(call) == text::join(call.params, ", "@)
        }),
{
    reveal_strlit("&str");
    reveal_strlit("&ProcessAddress");
    let call = call_text(fields, arg_names);
    lemma_target(fields, arg_names);
    if has_field(fields, "target"@) {
        let start = "target: "@ + call.target;
        assert(param_list(call).subrange(0, start.len() as int) == start);
    }
}

/// Which names the fields have, and then one more.
proof fn lemma_has_field(fields: Seq<FieldText>, name: Seq<char>)
    requires
        fields.len() > 0,
    ensures
        has_field(fields, name) <==> has_field(fields.drop_last(), name) || fields.last().name
            == name,
{
    let init = fields.drop_last();
    let last = fields.len() - 1;
    if has_field(init, name) {
        let i = choose|i: int| 0 <= i < init.len() && (#[trigger] init[i]).name == name;
        assert(fields[i].name == name);
    }
    if has_field(fields, name) && fields.last().name != name {
        let i = choose|i: int| 0 <= i < fields.len() && (#[trigger] fields[i]).name == name;
        assert(init[i].name == name);
    }
    assert(fields[last] == fields.last());
}

/// The target is empty exactly if no field is the target.
proof fn lemma_target(fields: Seq<FieldText>, arg_names: Seq<Seq<char>>)
    ensures
        ({
            let target = call_text(fields, arg_names).target;
            if has_field(fields, "target"@) {
                target == "&str"@ || target == "&ProcessAddress"@
            } else {
                target.len() == 0
            }
        }),
    decreases fields.len(),
{
    if fields.len() > 0 {
        lemma_target(fields.drop_last(), arg_names);
        lemma_has_field(fields, "target"@);
    }
}

/// The names with a meaning of their own are different.
proof fn reveal_field_names()
    ensures
        "target"@ != "returning"@,
        "target"@ != "arg-types"@,
        "returning"@ != "arg-types"@,
{
    reveal_strlit("target");
    reveal_strlit("returning");
    reveal_strlit("arg-types");
    assert("returning"@[0] != "arg-types"@[0]);
}

/// What two lists of fields say together: the parameters of both, and of the target and
/// the returned type what the second says, if it does.
proof fn lemma_call_add(a: Seq<FieldText>, b: Seq<FieldText>, arg_names: Seq<Seq<char>>)
    ensures
        ({
            let x = call_text(a, arg_names);
            let y = call_text(b, arg_names);
            call_text(a + b, arg_names) == CallText {
                target: if has_field(b, "target"@) {
                    y.target
                } else {
                    x.target
                },
                params: x.params + y.params,
                names: x.names + y.names,
                returns: if has_field(b, "returning"@) {
                    y.returns
                } else {
                    x.returns
                },
            }
        }),
    decreases b.len(),
{
    let x = call_text(a, arg_names);
    if b.len() == 0 {
        assert(a + b == a);
        assert(x.params + Seq::<Seq<char>>::empty() == x.params);
        assert(x.names + Seq::<Seq<char>>::empty() == x.names);
    } else {
        let init = b.drop_last();
        let field = b.last();
        lemma_call_add(a, init, arg_names);
        lemma_has_field(b, "target"@);
        lemma_has_field(b, "returning"@);
        reveal_field_names();
        assert((a + b).drop_last() == a + init);
        assert((a + b).last() == field);
        let y = call_text(init, arg_names);
        if field.name == "arg-types"@ {
            let types = wit_types::tuple_types(field.wit_type);
            let params = typed_params(arg_names, types);
            let names = param_names(arg_names, types.len());
            assert(x.params + y.params + params == x.params + (y.params + params));
            assert(x.names + y.names + names == x.names + (y.names + names));
        } else if field.name != "target"@ && field.name != "returning"@ {
            let name = naming::snake_case(field.name);
            let param = name + ": "@ + wit_types::rust_type(field.wit_type);
            assert((x.params + y.params).push(param) == x.params + y.params.push(param));
            assert((x.names + y.names).push(name) == x.names + y.names.push(name));
        }
    }
}

/// What one more field, which is the target or the returned type, adds to a call does
/// not depend on its place.
proof fn lemma_inserted(
    a: Seq<FieldText>,
    field: FieldText,
    b: Seq<FieldText>,
    arg_names: Seq<Seq<char>>,
)
    requires
        field.name == "target"@ || field.name == "returning"@,
        !has_field(a + b, field.name),
    ensures
        ({
            let call = call_text(a + b, arg_names);
            let added = call_text(seq![field], arg_names);
            call_text(a + seq![field] + b, arg_names) == if field.name == "target"@ {
                CallText { target: added.target, ..call }
            } else {
                CallText { returns: added.returns, ..call }
            }
        }),
{
    let one = seq![field];
    let x = call_text(a, arg_names);
    let y = call_text(b, arg_names);
    let none = Seq::<FieldText>::empty();
    reveal_field_names();
    assert(one.drop_last() == none);
    assert(call_text(none, arg_names).params == Seq::<Seq<char>>::empty());
    assert(one[0].name == field.name);
    assert forall|i: int| 0 <= i < b.len() implies (#[trigger] b[i]).name != field.name by {
        assert((a + b)[a.len() + i].name != field.name);
    }
    lemma_call_add(a, b, arg_names);
    lemma_call_add(a, one, arg_names);
    lemma_call_add(a + one, b, arg_names);
    assert(x.params + Seq::<Seq<char>>::empty() == x.params);
    assert(x.names + Seq::<Seq<char>>::empty() == x.names);
}

/// The place of the target and that of the returned type among the fields do not change
/// the stub.
pub proof fn law_field_place(
    signature: SignatureText,
    field: FieldText,
    a: Seq<FieldText>,
    b: Seq<FieldText>,
    c: Seq<FieldText>,
    d: Seq<FieldText>,
)
    requires
        field.name == "target"@ || field.name == "returning"@,
        !has_field(a + b, field.name),
        a + b == c + d,
    ensures
        stub_text(SignatureText { fields: a + seq![field] + b, ..signature }) == stub_text(
            SignatureText { fields: c + seq![field] + d, ..signature },
        ),
{
    let arg_names = signature_arg_names(signature);
    lemma_inserted(a, field, b, arg_names);
    lemma_inserted(c, field, d, arg_names);
}

/// Without a field for all arguments the names of the arguments do not matter.
proof fn lemma_unnamed(fields: Seq<FieldText>, x: Seq<Seq<char>>, y: Seq<Seq<char>>)
    requires
        !has_field(fields, "arg-types"@),
    ensures
        call_text(fields, x) == call_text(fields, y),
    decreases fields.len(),
{
    if fields.len() > 0 {
        lemma_has_field(fields, "arg-types"@);
        lemma_unnamed(fields.drop_last(), x, y);
    }
}

/// A field for each argument.
pub open spec fn single_fields(names: Seq<Seq<char>>, types: Seq<Seq<char>>) -> Seq<FieldText> {
    Seq::new(names.len(), |i: int| FieldText { name: names[i], wit_type: types[i] })
}

/// A field for all arguments.
pub open spec fn tuple_field(types: Seq<Seq<char>>, sep: Seq<char>) -> FieldText {
    FieldText { name: "arg-types"@, wit_type: "tuple<"@ + text::join(types, sep) + ">"@ }
}

/// A field that is an argument of its own.
pub open spec fn is_single(name: Seq<char>) -> bool {
    name != "target"@ && name != "returning"@ && name != "arg-types"@
}

/// A field for each argument gives each its parameter.
proof fn lemma_single_fields(
    names: Seq<Seq<char>>,
    types: Seq<Seq<char>>,
    arg_names: Seq<Seq<char>>,
)
    requires
        names.len() == types.len(),
        forall|i: int| 0 <= i < names.len() ==> is_single(#[trigger] names[i]),
    ensures
        call_text(single_fields(names, types), arg_names) == (CallText {
            target: Seq::empty(),
            params: typed_params(all_snake_case(names), types),
            names: all_snake_case(names),
            returns: "()"@,
        }),
    decreases names.len(),
{
    let fields = single_fields(names, types);
    if names.len() > 0 {
        let ns = names.drop_last();
        let ts = types.drop_last();
        assert forall|i: int| 0 <= i < ns.len() implies is_single(#[trigger] ns[i]) by {
            assert(ns[i] == names[i]);
        }
        lemma_single_fields(ns, ts, arg_names);
        assert(fields.drop_last() == single_fields(ns, ts));
        assert(is_single(names[names.len() - 1]));
        let name = naming::snake_case(names.last());
        let param = name + ": "@ + wit_types::rust_type(types.last());
        assert(all_snake_case(ns).push(name) == all_snake_case(names));
        assert(typed_params(all_snake_case(ns), ts).push(param) == typed_params(
            all_snake_case(names),
            types,
        ));
    } else {
        assert(typed_params(all_snake_case(names), types) == Seq::<Seq<char>>::empty());
        assert(all_snake_case(names) == Seq::<Seq<char>>::empty());
    }
}

/// A field for each argument gives the same stub as one field for all of them with the
/// comment that names them.
pub proof fn law_single_fields(
    signature: SignatureText,
    a: Seq<FieldText>,
    b: Seq<FieldText>,
    names: Seq<Seq<char>>,
    types: Seq<Seq<char>>,
    sep: Seq<char>,
)
    requires
        names.len() == types.len(),
        forall|i: int|
            0 <= i < names.len() ==> signature::is_arg_name(#[trigger] names[i]) && is_single(
                names[i],
            ),
        forall|i: int|
            0 <= i < types.len() ==> wit_types::is_trimmed_element(#[trigger] types[i]),
        types.len() > 0 ==> types.last().len() > 0,
        wit_types::is_separator(sep),
        !has_field(a, "arg-types"@),
        !has_field(b, "arg-types"@),
    ensures
        stub_text(SignatureText { fields: a + single_fields(names, types) + b, ..signature })
            == stub_text(
            SignatureText {
                fields: a + seq![tuple_field(types, sep)] + b,
                args_comment: Some(
                    "// args: ("@ + text::join(signature::written_args(names, types), sep) + ")"@,
                ),
                ..signature
            },
        ),
{
    let singles = single_fields(names, types);
    let one = seq![tuple_field(types, sep)];
    let given = signature_arg_names(signature);
    let named = all_snake_case(names);
    let none = Seq::<FieldText>::empty();
    assert forall|i: int| 0 <= i < types.len() implies wit_types::is_element(
        #[trigger] types[i],
    ) by {
        assert(wit_types::is_trimmed_element(types[i]));
    }
    assert forall|i: int| 0 <= i < names.len() implies signature::is_arg_name(
        #[trigger] names[i],
    ) by {
    }
    assert forall|i: int| 0 <= i < names.len() implies is_single(#[trigger] names[i]) by {
        assert(signature::is_arg_name(names[i]));
    }
    signature::law_args_comment(names, types, sep);
    wit_types::law_tuple_types(types, sep);
    lemma_single_fields(names, types, given);
    reveal_field_names();
    assert(one.drop_last() == none);
    assert(call_text(none, named).params + typed_params(named, types) == typed_params(
        named,
        types,
    ));
    assert(param_names(named, types.len()) == named);
    assert(call_text(none, named).names + named == named);
    assert(call_text(one, named) == call_text(singles, given));
    assert forall|i: int| 0 <= i < singles.len() implies is_single(
        (#[trigger] singles[i]).name,
    ) by {
        assert(is_single(names[i]));
    }
    lemma_unnamed(a, given, named);
    lemma_unnamed(b, given, named);
    lemma_call_add(a, singles, given);
    lemma_call_add(a + singles, b, given);
    lemma_call_add(a, one, named);
    lemma_call_add(a + one, b, named);
    assert(call_text(a + singles + b, given) == call_text(a + one + b, named));
}

/// The stubs for two lists of signatures are those for the first, followed by those
/// for the second.
pub proof fn law_module_text(a: Seq<SignatureText>, b: Seq<SignatureText>)
    ensures
        module_text(a + b) == module_text(a) + module_text(b),
    decreases b.len(),
{
    if b.len() == 0 {
        assert(a + b == a);
        assert(module_text(a) + Seq::<char>::empty() == module_text(a));
    } else {
        law_module_text(a, b.drop_last());
        assert((a + b).drop_last() == a + b.drop_last());
        lemma_add_stub(
            module_text(a),
            module_text(b.drop_last()),
            stub_text(b.last()),
            "\n\n"@,
        );
    }
}

/// It does not matter which of the texts are put together first.
proof fn lemma_add_stub(a: Seq<char>, b: Seq<char>, stub: Seq<char>, end: Seq<char>)
    ensures
        a + b + stub + end == a + (b + stub + end),
{
}

/// The module for some signatures holds the stub for each that is no HTTP endpoint.
pub proof fn law_module_holds_stubs(signatures: Seq<SignatureText>, k: int)
    requires
        0 <= k < signatures.len(),
        signatures[k].attr_type != "http"@,
    ensures
        text::contains(module_text(signatures), stub_text(signatures[k])),
    decreases signatures.len(),
{
    let init = signatures.drop_last();
    let before = module_text(init);
    let all = module_text(signatures);
    if k == signatures.len() - 1 {
        let stub = stub_text(signatures[k]);
        assert(all.subrange(before.len() as int, before.len() + stub.len() as int) == stub);
        assert(text::occurs_at(all, stub, before.len() as int));
    } else {
        law_module_holds_stubs(init, k);
        assert(all.subrange(0, before.len() as int) == before);
        assert(text::occurs_at(all, before, 0));
        text::lemma_contains_trans(all, before, stub_text(signatures[k]));
    }
}

/// What two lists of fields say together: the parameters of the first and then those of
/// the second, and of the target and the returned type what the second says, if it does.
pub proof fn law_call_of_fields(a: Seq<FieldText>, b: Seq<FieldText>, arg_names: Seq<Seq<char>>)
    ensures
        ({
            let x = call_text(a, arg_names);
            let y = call_text(b, arg_names);
            let z = call_text(a + b, arg_names);
            &&& z.params == x.params + y.params
            &&& z.names == x.names + y.names
            &&& has_field(b, "target"@) ==> z.target == y.target
            &&& !has_field(b, "target"@) ==> z.target == x.target
            &&& has_field(b, "returning"@) ==> z.returns == y.returns
            &&& !has_field(b, "returning"@) ==> z.returns == x.returns
        }),
{
    lemma_call_add(a, b, arg_names);
}

/// What one field says. The target is a text or an address; the returned type is that of
/// its field; a tuple of arguments has a parameter for each of its elements, with the name
/// that the comment gives, or a numbered one; any other field is a parameter.
pub proof fn law_call_of_field(field: FieldText, arg_names: Seq<Seq<char>>)
    ensures
        ({
            let call = call_text(seq![field], arg_names);
            let types = wit_types::tuple_types(field.wit_type);
            let none = Seq::<Seq<char>>::empty();
            &&& field.name == "target"@ ==> call.target == (if field.wit_type == "string"@ {
                "&str"@
            } else {
                "&ProcessAddress"@
            })
            &&& field.name != "target"@ ==> call.target == Seq::<char>::empty()
            &&& field.name == "returning"@ ==> call.returns == wit_types::rust_type(field.wit_type)
            &&& field.name != "returning"@ ==> call.returns == "()"@
            &&& field.name == "target"@ || field.name == "returning"@ ==> call.params == none
                && call.names == none
            &&& field.name == "arg-types"@ ==> call.params.len() == types.len()
                && call.names.len() == types.len() && forall|i: int|
                0 <= i < types.len() ==> (#[trigger] call.names[i]) == (if i < arg_names.len() {
                    arg_names[i]
                } else {
                    "arg"@ + text::decimal(i as nat)
                }) && call.params[i] == call.names[i] + ": "@ + wit_types::rust_type(types[i])
            &&& is_single(field.name) ==> call.names == seq![naming::snake_case(field.name)]
                && call.params == seq![
                naming::snake_case(field.name) + ": "@ + wit_types::rust_type(field.wit_type),
            ]
        }),
        ({
            let call = call_text(Seq::empty(), arg_names);
            &&& call.target == Seq::<char>::empty() && call.returns == "()"@
            &&& call.params == Seq::<Seq<char>>::empty()
            &&& call.names == Seq::<Seq<char>>::empty()
        }),
{
    let none = Seq::<Seq<char>>::empty();
    let empty = Seq::<FieldText>::empty();
    reveal_field_names();
    assert(seq![field].drop_last() == empty);
    assert(call_text(empty, arg_names).params == none);
    assert(call_text(empty, arg_names).names == none);
    let types = wit_types::tuple_types(field.wit_type);
    assert(none + typed_params(arg_names, types) == typed_params(arg_names, types));
    assert(none + param_names(arg_names, types.len()) == param_names(arg_names, types.len()));
    let name = naming::snake_case(field.name);
    let param = name + ": "@ + wit_types::rust_type(field.wit_type);
    assert(none.push(name) == seq![name] && none.push(param) == seq![param]);
}

/// With a target the parameter list is the target and then every parameter, each behind a
/// comma; without one it is the parameters with commas between them. Every parameter
/// stands in it.
pub proof fn law_param_list(call: CallText)
    ensures
        call.target.len() > 0 ==> param_list(call) == "target: "@ + call.target + text::concat(
            Seq::new(call.params.len(), |i: int| ", "@ + call.params[i]),
        ),
        call.target.len() == 0 ==> param_list(call) == text::join(call.params, ", "@),
        forall|i: int|
            0 <= i < call.params.len() ==> text::contains(
                param_list(call),
                #[trigger] call.params[i],
            ),
{
    let more = Seq::new(call.params.len(), |i: int| ", "@ + call.params[i]);
    let start = "target: "@ + call.target;
    lemma_behind_commas(call.params);
    if call.target.len() > 0 {
        if call.params.len() == 0 {
            assert(more == Seq::<Seq<char>>::empty());
            assert(start + Seq::<char>::empty() == start);
        } else {
            assert(start + (", "@ + text::join(call.params, ", "@)) == start + ", "@ + text::join(
                call.params,
                ", "@,
            ));
        }
    }
    assert forall|i: int| 0 <= i < call.params.len() implies text::contains(
        param_list(call),
        #[trigger] call.params[i],
    ) by {
        let joined = text::join(call.params, ", "@);
        lemma_join_contains(call.params, ", "@, i);
        let list = param_list(call);
        let k = list.len() - joined.len();
        assert(list.subrange(k, list.len() as int) == joined);
        assert(text::occurs_at(list, joined, k));
        text::lemma_contains_trans(list, joined, call.params[i]);
    }
}

/// Parts with a separator between them, and one more in front.
proof fn lemma_behind_commas(parts: Seq<Seq<char>>)
    ensures
        parts.len() > 0 ==> text::concat(
            Seq::new(parts.len(), |i: int| ", "@ + parts[i]),
        ) == ", "@ + text::join(parts, ", "@),
        parts.len() == 0 ==> text::concat(Seq::new(parts.len(), |i: int| ", "@ + parts[i])) == Seq::<
            char,
        >::empty(),
    decreases parts.len(),
{
    let all = Seq::new(parts.len(), |i: int| ", "@ + parts[i]);
    if parts.len() > 0 {
        let init = parts.drop_last();
        let fewer = Seq::new(init.len(), |i: int| ", "@ + init[i]);
        lemma_behind_commas(init);
        assert(all.drop_last() == fewer);
        let last = ", "@ + parts.last();
        if parts.len() == 1 {
            assert(text::concat(fewer) + last == last);
        } else {
            let x = text::join(init, ", "@);
            assert(", "@ + x + last == ", "@ + (x + ", "@ + parts.last()));
        }
    }
}

/// Each part stands in the parts that are joined.
proof fn lemma_join_contains(parts: Seq<Seq<char>>, sep: Seq<char>, i: int)
    requires
        0 <= i < parts.len(),
    ensures
        text::contains(text::join(parts, sep), parts[i]),
    decreases parts.len(),
{
    let all = text::join(parts, sep);
    let last = parts.last();
    if i == parts.len() - 1 {
        let k = all.len() - last.len();
        assert(all.subrange(k, all.len() as int) == last);
        assert(text::occurs_at(all, last, k));
    } else {
        let init = parts.drop_last();
        let before = text::join(init, sep);
        lemma_join_contains(init, sep, i);
        assert(all.subrange(0, before.len() as int) == before);
        assert(text::occurs_at(all, before, 0));
        text::lemma_contains_trans(all, before, parts[i]);
    }
}

/// The body of a request holds the function in Pascal case and every argument: nothing for
/// no argument, the argument itself for one, and for more the tuple of them.
pub proof fn law_json_text(function_name: Seq<char>, names: Seq<Seq<char>>, name: Seq<char>)
    ensures
        json_text(function_name, Seq::empty()) == text::concat(
            seq!["json!({\""@, naming::pascal_case(function_name), "\" : null})"@],
        ),
        json_text(function_name, seq![name]) == text::concat(
            seq!["json!({\""@, naming::pascal_case(function_name), "\": "@, name, "})"@],
        ),
        names.len() > 1 ==> json_text(function_name, names) == text::concat(
            seq![
                "json!({\""@,
                naming::pascal_case(function_name),
                "\": ("@,
                text::join(names, ", "@),
                ")})"@,
            ],
        ),
{
    let pascal = naming::pascal_case(function_name);
    let joined = text::join(names, ", "@);
    text_laws::lemma_concat_three("json!({\""@, pascal, "\" : null})"@);
    text_laws::lemma_concat_five("json!({\""@, pascal, "\": "@, name, "})"@);
    text_laws::lemma_concat_five("json!({\""@, pascal, "\": ("@, joined, ")})"@);
}

/// The names that a comment gives to the arguments, in snake case.
pub open spec fn are_names_of(arg_names: Seq<Seq<char>>, comment: Option<Seq<char>>) -> bool {
    match comment {
        Some(comment) => {
            let given = signature::comment_names(comment);
            arg_names.len() == given.len() && forall|i: int|
                0 <= i < given.len() ==> #[trigger] arg_names[i] == naming::snake_case(given[i])
        },
        None => arg_names.len() == 0,
    }
}

/// A stub is a function with the name of the remote function in snake case, the way to
/// call it and `rpc`. It declares the target and the parameters, returns what the remote
/// function returns or an error, and sends the body of the request to the target.
pub proof fn law_stub_text(signature: SignatureText, arg_names: Seq<Seq<char>>)
    requires
        are_names_of(arg_names, signature.args_comment),
    ensures
        ({
            let call = call_text(signature.fields, arg_names);
            let name = naming::snake_case(signature.function_name);
            stub_text(signature) == text::concat(
                seq![
                    "/// Generated stub for `"@,
                    signature.function_name,
                    "` "@,
                    signature.attr_type,
                    " RPC call\n"@,
                ],
            ) + text::concat(
                seq!["pub async fn "@, name, "_"@, signature.attr_type, "_rpc("@],
            ) + text::concat(
                seq![param_list(call), ") -> Result<"@, call.returns, ", AppSendError> {\n"@],
            ) + text::concat(
                seq![
                    "    let body = "@,
                    json_text(signature.function_name, call.names),
                    ";\n    let body = serde_json::to_vec(&body).unwrap();\n"@,
                    "    let request = Request::to(target)\n"@,
                    "        .body(body);\n"@,
                ],
            ) + text::concat(seq!["    send::<"@, call.returns, ">(request).await\n}"@])
        }),
{
    let call = call_text(signature.fields, arg_names);
    let name = naming::snake_case(signature.function_name);
    let f = signature.function_name;
    let t = signature.attr_type;
    let json = json_text(f, call.names);
    assert(signature_arg_names(signature) == arg_names);
    text_laws::lemma_concat_five("/// Generated stub for `"@, f, "` "@, t, " RPC call\n"@);
    text_laws::lemma_concat_five("pub async fn "@, name, "_"@, t, "_rpc("@);
    text_laws::lemma_concat_four(param_list(call), ") -> Result<"@, call.returns, ", AppSendError> {\n"@);
    text_laws::lemma_concat_five(
        "    let body = "@,
        json,
        ";\n    let body = serde_json::to_vec(&body).unwrap();\n"@,
        "    let request = Request::to(target)\n"@,
        "        .body(body);\n"@,
    );
    text_laws::lemma_concat_three("    send::<"@, call.returns, ">(request).await\n}"@);
    lemma_stub_literals();
    lemma_stub_parts(f, t, name, param_list(call), call.returns, json);
}

/// How the texts of a stub meet at the ends of its lines.
proof fn lemma_stub_literals()
    ensures
        " RPC call\npub async fn "@ == " RPC call\n"@ + "pub async fn "@,
        ", AppSendError> {\n    let body = "@ == ", AppSendError> {\n"@ + "    let body = "@,
        ";\n    let body = serde_json::to_vec(&body).unwrap();\n    let request = Request::to(target)\n        .body(body);\n    send::<"@
            == ";\n    let body = serde_json::to_vec(&body).unwrap();\n"@
            + "    let request = Request::to(target)\n"@ + "        .body(body);\n"@
            + "    send::<"@,
        "_rpc("@ == "_rpc"@ + "("@,
{
    reveal_strlit(" RPC call\npub async fn ");
    reveal_strlit(" RPC call\n");
    reveal_strlit("pub async fn ");
    reveal_strlit(", AppSendError> {\n    let body = ");
    reveal_strlit(", AppSendError> {\n");
    reveal_strlit("    let body = ");
    reveal_strlit(
        ";\n    let body = serde_json::to_vec(&body).unwrap();\n    let request = Request::to(target)\n        .body(body);\n    send::<",
    );
    reveal_strlit(";\n    let body = serde_json::to_vec(&body).unwrap();\n");
    reveal_strlit("    let request = Request::to(target)\n");
    reveal_strlit("        .body(body);\n");
    reveal_strlit("    send::<");
    reveal_strlit("_rpc(");
    reveal_strlit("_rpc");
    reveal_strlit("(");
    assert(" RPC call\npub async fn "@ == " RPC call\n"@ + "pub async fn "@);
    assert(", AppSendError> {\n    let body = "@ == ", AppSendError> {\n"@ + "    let body = "@);
    assert(";\n    let body = serde_json::to_vec(&body).unwrap();\n    let request = Request::to(target)\n        .body(body);\n    send::<"@
        == ";\n    let body = serde_json::to_vec(&body).unwrap();\n"@
        + "    let request = Request::to(target)\n"@ + "        .body(body);\n"@
        + "    send::<"@);
    assert("_rpc("@ == "_rpc"@ + "("@);
}

/// The parts of a stub, put together in two ways.
proof fn lemma_stub_parts(
    f: Seq<char>,
    t: Seq<char>,
    name: Seq<char>,
    params: Seq<char>,
    returns: Seq<char>,
    json: Seq<char>,
)
    requires
        " RPC call\npub async fn "@ == " RPC call\n"@ + "pub async fn "@,
        ", AppSendError> {\n    let body = "@ == ", AppSendError> {\n"@ + "    let body = "@,
        ";\n    let body = serde_json::to_vec(&body).unwrap();\n    let request = Request::to(target)\n        .body(body);\n    send::<"@
            == ";\n    let body = serde_json::to_vec(&body).unwrap();\n"@
            + "    let request = Request::to(target)\n"@ + "        .body(body);\n"@
            + "    send::<"@,
        "_rpc("@ == "_rpc"@ + "("@,
    ensures
        "/// Generated stub for `"@ + f + "` "@ + t + " RPC call\npub async fn "@ + (name + "_"@ + t
            + "_rpc"@) + "("@ + params + ") -> Result<"@ + returns
            + ", AppSendError> {\n    let body = "@ + json
            + ";\n    let body = serde_json::to_vec(&body).unwrap();\n    let request = Request::to(target)\n        .body(body);\n    send::<"@
            + returns + ">(request).await\n}"@ == ("/// Generated stub for `"@ + f + "` "@ + t
            + " RPC call\n"@) + ("pub async fn "@ + name + "_"@ + t + "_rpc("@) + (params
            + ") -> Result<"@ + returns + ", AppSendError> {\n"@) + ("    let body = "@ + json
            + ";\n    let body = serde_json::to_vec(&body).unwrap();\n"@
            + "    let request = Request::to(target)\n"@ + "        .body(body);\n"@) + (
        "    send::<"@ + returns + ">(request).await\n}"@),
{
}

/// A signature gives its stub and an empty line, and an HTTP endpoint gives nothing.
pub proof fn law_module_of_one(signature: SignatureText)
    ensures
        signature.attr_type == "http"@ ==> module_text(seq![signature]) == Seq::<char>::empty(),
        signature.attr_type != "http"@ ==> module_text(seq![signature]) == stub_text(signature)
            + "\n\n"@,
        module_text(Seq::empty()) == Seq::<char>::empty(),
{
    let none = Seq::<SignatureText>::empty();
    assert(seq![signature].drop_last() == none);
    assert(module_text(none) == Seq::<char>::empty());
    lemma_add_stub(Seq::empty(), Seq::empty(), stub_text(signature), "\n\n"@);
    assert(Seq::<char>::empty() + stub_text(signature) == stub_text(signature));
}

} // verus!
