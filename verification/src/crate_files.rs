//! The files of the generated crate.

use crate::named;
use crate::named::{Named, NamedText};
use crate::naming;
use crate::signature;
use crate::signature::{SignatureStruct, SignatureText};
use crate::strings;
use crate::stubs;
use crate::text;
use crate::text_laws;
use crate::wit_types;
use crate::worlds;
use vstd::hash_set::StringHashSet;
use vstd::prelude::*;
use vstd::string::*;

verus! {

// ---------------------------------------------------------------------------
// The manifest
// ---------------------------------------------------------------------------

/// The name of the crate that is generated for a package.
pub open spec fn crate_name_text(package_name: Seq<char>) -> Seq<char> {
    package_name + "-caller-utils"@
}

/// The manifest of the crate `crate_name` that depends on `hyperware_process_lib` as
/// `dependency` says.
pub open spec fn cargo_toml_text(crate_name: Seq<char>, dependency: Seq<char>) -> Seq<char> {
    "[package]\nname = \""@ + naming::snake_case(crate_name)
        + "\"\nversion = \"0.1.0\"\nedition = \"2021\"\npublish = false\n\n[dependencies]\nanyhow = \"1.0\"\nprocess_macros = \"0.1.0\"\nfutures-util = \"0.3\"\nserde = { version = \"1.0\", features = [\"derive\"] }\nserde_json = \"1.0\"\nhyperware_process_lib = "@
        + dependency
        + "\nonce_cell = \"1.20.2\"\nfutures = \"0.3\"\nuuid = { version = \"1.0\" }\nwit-bindgen = \"0.41.0\"\n\n[lib]\ncrate-type = [\"cdylib\", \"lib\"]\n"@
}

/// The name of the crate that is generated for a package.
pub fn caller_utils_crate_name(package_name: &str) -> (r: String)
    ensures
        r@ == crate_name_text(package_name@),
{
    let mut out = package_name.to_string();
    out.append("-caller-utils");
    out
}

/// The manifest of the generated crate.
pub fn cargo_toml(crate_name: &str, dependency: &str) -> (r: String)
    ensures
        r@ == cargo_toml_text(crate_name@, dependency@),
{
    let mut out = "[package]\nname = \"".to_string();
    out.append(naming::to_snake_case(crate_name).as_str());
    out.append(
        "\"\nversion = \"0.1.0\"\nedition = \"2021\"\npublish = false\n\n[dependencies]\nanyhow = \"1.0\"\nprocess_macros = \"0.1.0\"\nfutures-util = \"0.3\"\nserde = { version = \"1.0\", features = [\"derive\"] }\nserde_json = \"1.0\"\nhyperware_process_lib = ",
    );
    out.append(dependency);
    out.append(
        "\nonce_cell = \"1.20.2\"\nfutures = \"0.3\"\nuuid = { version = \"1.0\" }\nwit-bindgen = \"0.41.0\"\n\n[lib]\ncrate-type = [\"cdylib\", \"lib\"]\n",
    );
    out
}

// ---------------------------------------------------------------------------
// The modules
// ---------------------------------------------------------------------------

/// A WIT file: its name without the extension, and what it holds.
#[derive(Debug)]
pub struct WitFile {
    pub name: String,
    pub content: String,
}

/// What a [`WitFile`] says.
pub struct WitText {
    pub name: Seq<char>,
    pub content: Seq<char>,
}

impl View for WitFile {
    type V = WitText;

    open spec fn view(&self) -> WitText {
        WitText { name: self.name@, content: self.content@ }
    }
}

/// What the files say, file by file.
pub open spec fn wit_texts(files: Seq<WitFile>) -> Seq<WitText> {
    Seq::new(files.len(), |i: int| files[i]@)
}

/// One of the interfaces has the name `name`, but for percent signs before it.
pub open spec fn names_interface(interfaces: Seq<Seq<char>>, name: Seq<char>) -> bool {
    exists|i: int|
        0 <= i < interfaces.len() && worlds::unmarked(#[trigger] interfaces[i])
            == worlds::unmarked(name)
}

/// The file describes one of the interfaces: it is no file of worlds, and it has the
/// name of the interface.
pub open spec fn is_interface_file(file: WitText, interfaces: Seq<Seq<char>>) -> bool {
    !text::contains(file.content, "world "@) && names_interface(interfaces, file.name)
}

/// The signatures in a file.
pub open spec fn file_signatures(file: WitText) -> Seq<SignatureText> {
    signature::definitions(text::lines(file.content), None).signatures
}

/// The types in the signatures of the files that describe an interface can be
/// converted.
pub open spec fn file_convertible(file: WitText, interfaces: Seq<Seq<char>>) -> bool {
    is_interface_file(file, interfaces) ==> forall|i: int|
        0 <= i < file_signatures(file).len() ==> stubs::signature_convertible(
            #[trigger] file_signatures(file)[i],
        )
}

/// The modules for the files: one for each file that describes an interface and holds
/// signatures.
pub open spec fn file_modules(files: Seq<WitText>, interfaces: Seq<Seq<char>>) -> Seq<NamedText>
    decreases files.len(),
{
    if files.len() == 0 {
        Seq::empty()
    } else {
        let before = file_modules(files.drop_last(), interfaces);
        let file = files.last();
        if is_interface_file(file, interfaces) && file_signatures(file).len() > 0 {
            named::with_entry(
                before,
                NamedText {
                    name: naming::snake_case(file.name),
                    text: stubs::module_text(file_signatures(file)),
                },
            )
        } else {
            before
        }
    }
}

/// Whether a file describes one of the interfaces.
pub fn describes_interface(file: &WitFile, interfaces: &Vec<String>) -> (r: bool)
    ensures
        r == is_interface_file(file@, text::texts(interfaces@)),
{
    if strings::contains(file.content.as_str(), "world ") {
        return false;
    }
    let name = strings::strip_prefixes(file.name.as_str(), "%");
    let ghost all = text::texts(interfaces@);
    let mut found = false;
    let mut i: usize = 0;
    while i < interfaces.len()
        invariant
            i <= interfaces.len(),
            all == text::texts(interfaces@),
            name@ == worlds::unmarked(file.name@),
            found == (exists|k: int|
                0 <= k < i && worlds::unmarked(#[trigger] all[k]) == worlds::unmarked(
                    file.name@,
                )),
        decreases interfaces.len() - i,
    {
        assert(all[i as int] == interfaces@[i as int]@);
        if strings::same(strings::strip_prefixes(interfaces[i].as_str(), "%"), name) {
            found = true;
        }
        i = i + 1;
    }
    found
}

/// Whether the types in the signatures of the files that describe an interface can be
/// converted.
pub fn are_files_convertible(files: &Vec<WitFile>, interfaces: &Vec<String>) -> (r: bool)
    ensures
        r == (forall|i: int|
            0 <= i < files@.len() ==> file_convertible(
                (#[trigger] files@[i])@,
                text::texts(interfaces@),
            )),
{
    let mut good = true;
    let mut i: usize = 0;
    while i < files.len()
        invariant
            i <= files.len(),
            good == (forall|k: int|
                0 <= k < i ==> file_convertible((#[trigger] files@[k])@, text::texts(interfaces@))),
        decreases files.len() - i,
    {
        if describes_interface(&files[i], interfaces) {
            let (signatures, _types) = signature::parse_wit_file(files[i].content.as_str());
            let g = are_convertible(&signatures);
            proof {
                let all = file_signatures(files@[i as int]@);
                if g {
                    assert forall|k: int| 0 <= k < all.len() implies stubs::signature_convertible(
                        #[trigger] all[k],
                    ) by {
                        assert(all[k] == signatures@[k]@);
                    }
                } else {
                    let k = choose|k: int|
                        0 <= k < signatures@.len() && !stubs::signature_convertible(
                            (#[trigger] signatures@[k])@,
                        );
                    assert(all[k] == signatures@[k]@);
                }
            }
            good = good && g;
        }
        i = i + 1;
    }
    good
}

/// Whether the types in the signatures can be converted.
fn are_convertible(signatures: &Vec<SignatureStruct>) -> (r: bool)
    ensures
        r == (forall|i: int|
            0 <= i < signatures@.len() ==> stubs::signature_convertible(
                (#[trigger] signatures@[i])@,
            )),
{
    let mut good = true;
    let mut i: usize = 0;
    while i < signatures.len()
        invariant
            i <= signatures.len(),
            good == (forall|k: int|
                0 <= k < i ==> stubs::signature_convertible((#[trigger] signatures@[k])@)),
        decreases signatures.len() - i,
    {
        let g = stubs::is_signature_convertible(&signatures[i]);
        good = good && g;
        i = i + 1;
    }
    good
}

/// Generates the modules for the files that describe one of the interfaces.
pub fn generate_modules(files: &Vec<WitFile>, interfaces: &Vec<String>) -> (r: Vec<Named>)
    requires
        forall|i: int|
            0 <= i < files@.len() ==> file_convertible(
                (#[trigger] files@[i])@,
                text::texts(interfaces@),
            ),
    ensures
        named::named_texts(r@) == file_modules(wit_texts(files@), text::texts(interfaces@)),
{
    let ghost all = wit_texts(files@);
    let mut modules: Vec<Named> = Vec::new();
    let mut i: usize = 0;
    assert(named::named_texts(modules@) == Seq::<NamedText>::empty());
    while i < files.len()
        invariant
            i <= files.len(),
            all == wit_texts(files@),
            forall|k: int|
                0 <= k < files@.len() ==> file_convertible(
                    (#[trigger] files@[k])@,
                    text::texts(interfaces@),
                ),
            named::named_texts(modules@) == file_modules(
                all.take(i as int),
                text::texts(interfaces@),
            ),
        decreases files.len() - i,
    {
        proof {
            assert(all.take(i + 1).drop_last() == all.take(i as int));
            assert(all.take(i + 1).last() == files@[i as int]@);
        }
        if describes_interface(&files[i], interfaces) {
            let (signatures, _types) = signature::parse_wit_file(files[i].content.as_str());
            proof {
                let found = file_signatures(files@[i as int]@);
                assert(found.len() == signatures@.len());
                assert forall|k: int|
                    0 <= k < signatures@.len() implies stubs::signature_convertible(
                    (#[trigger] signatures@[k])@,
                ) by {
                    assert(found[k] == signatures@[k]@);
                    assert(stubs::signature_convertible(file_signatures(files@[i as int]@)[k]));
                }
            }
            if signatures.len() > 0 {
                let module = Named {
                    name: naming::to_snake_case(files[i].name.as_str()),
                    text: stubs::generate_module(&signatures),
                };
                named::put_entry(&mut modules, module);
            }
        }
        i = i + 1;
    }
    assert(all.take(all.len() as int) == all);
    modules
}

// ---------------------------------------------------------------------------
// The library
// ---------------------------------------------------------------------------

/// The names in snake case, each once, in the order in which they come first.
pub open spec fn use_names(interfaces: Seq<Seq<char>>) -> Seq<Seq<char>>
    decreases interfaces.len(),
{
    if interfaces.len() == 0 {
        Seq::empty()
    } else {
        let before = use_names(interfaces.drop_last());
        let name = naming::snake_case(interfaces.last());
        if before.contains(name) {
            before
        } else {
            before.push(name)
        }
    }
}

/// A line for each name that imports what its module holds.
pub open spec fn use_lines(names: Seq<Seq<char>>) -> Seq<char>
    decreases names.len(),
{
    if names.len() == 0 {
        Seq::empty()
    } else {
        use_lines(names.drop_last()) + "pub use crate::hyperware::process::"@ + names.last()
            + "::*;\n"@
    }
}

/// The imports of the interfaces, with a heading.
pub open spec fn use_block(interfaces: Seq<Seq<char>>) -> Seq<char> {
    let names = use_names(interfaces);
    if names.len() == 0 {
        Seq::empty()
    } else {
        "// Import types from each interface\n"@ + use_lines(names) + "\n"@
    }
}

/// A module with its content indented.
pub open spec fn module_block(module: NamedText) -> Seq<char> {
    "/// Generated RPC stubs for the "@ + module.name + " interface\npub mod "@ + module.name
        + " {\n    use crate::*;\n\n    "@ + text::replace_char(module.text, '\n', "\n    "@)
        + "\n}\n\n"@
}

/// The modules one after the other.
pub open spec fn module_blocks(modules: Seq<NamedText>) -> Seq<char>
    decreases modules.len(),
{
    if modules.len() == 0 {
        Seq::empty()
    } else {
        module_blocks(modules.drop_last()) + module_block(modules.last())
    }
}

/// The root of the generated crate.
pub open spec fn lib_rs_text(
    world: Seq<char>,
    interfaces: Seq<Seq<char>>,
    modules: Seq<NamedText>,
) -> Seq<char> {
    "wit_bindgen::generate!({\n    path: \"target/wit\",\n    world: \""@ + world
        + "\",\n    generate_unused_types: true,\n    additional_derives: [serde::Deserialize, serde::Serialize, process_macros::SerdeJsonInto],\n});\n\n/// Generated caller utilities for RPC function stubs\n\npub use hyperware_process_lib::hyperapp::AppSendError;\npub use hyperware_process_lib::hyperapp::send;\npub use hyperware_process_lib::{Address as ProcessAddress, Request};\nuse serde_json::json;\n\n"@
        + use_block(interfaces) + module_blocks(modules)
}

/// The names in snake case, each once.
fn names_to_use(interfaces: &Vec<String>) -> (r: Vec<String>)
    ensures
        text::texts(r@) == use_names(text::texts(interfaces@)),
{
    let ghost all = text::texts(interfaces@);
    let mut names: Vec<String> = Vec::new();
    let mut processed = StringHashSet::new();
    let mut i: usize = 0;
    assert(text::texts(names@) == Seq::<Seq<char>>::empty());
    while i < interfaces.len()
        invariant
            i <= interfaces.len(),
            all == text::texts(interfaces@),
            text::texts(names@) == use_names(all.take(i as int)),
            forall|name: Seq<char>| #[trigger]
                processed@.contains(name) <==> use_names(all.take(i as int)).contains(name),
        decreases interfaces.len() - i,
    {
        let ghost before = text::texts(names@);
        assert(all.take(i + 1).drop_last() == all.take(i as int));
        let name = naming::to_snake_case(interfaces[i].as_str());
        let ghost said = name@;
        let ghost processed_before = processed@;
        if processed.insert(name.clone()) {
            names.push(name);
            assert(text::texts(names@) == before.push(said));
            assert forall|n: Seq<char>| #[trigger]
                processed@.contains(n) <==> before.push(said).contains(n) by {
                if before.contains(n) {
                    let k = choose|k: int| 0 <= k < before.len() && before[k] == n;
                    assert(before.push(said)[k] == n);
                }
                if n == said {
                    assert(before.push(said)[before.len() as int] == n);
                }
                if before.push(said).contains(n) && n != said {
                    let k = choose|k: int| 0 <= k <= before.len() && before.push(said)[k] == n;
                    assert(before[k] == n);
                }
            }
        } else {
            assert(processed@ == processed_before);
        }
        i = i + 1;
    }
    assert(all.take(all.len() as int) == all);
    names
}

/// The imports of the interfaces, with a heading.
fn generate_uses(interfaces: &Vec<String>) -> (r: String)
    ensures
        r@ == use_block(text::texts(interfaces@)),
{
    let names = names_to_use(interfaces);
    let ghost all = text::texts(names@);
    let ghost head = "// Import types from each interface\n"@;
    if names.len() == 0 {
        return String::new();
    }
    let mut out = "// Import types from each interface\n".to_string();
    let mut i: usize = 0;
    assert(head + Seq::<char>::empty() == head);
    while i < names.len()
        invariant
            i <= names.len(),
            all == text::texts(names@),
            head == "// Import types from each interface\n"@,
            out@ == head + use_lines(all.take(i as int)),
        decreases names.len() - i,
    {
        let ghost before = use_lines(all.take(i as int));
        let ghost start = "pub use crate::hyperware::process::"@;
        out.append("pub use crate::hyperware::process::");
        out.append(names[i].as_str());
        out.append("::*;\n");
        proof {
            assert(all.take(i + 1).drop_last() == all.take(i as int));
            assert(head + before + start + all[i as int] + "::*;\n"@ == head + (before + start
                + all[i as int] + "::*;\n"@));
        }
        i = i + 1;
    }
    assert(all.take(all.len() as int) == all);
    out.append("\n");
    out
}

/// A module with its content indented.
fn module_block_for(module: &Named) -> (r: String)
    ensures
        r@ == module_block(module@),
{
    let mut out = "/// Generated RPC stubs for the ".to_string();
    out.append(module.name.as_str());
    out.append(" interface\npub mod ");
    out.append(module.name.as_str());
    out.append(" {\n    use crate::*;\n\n    ");
    out.append(strings::replace_char(module.text.as_str(), '\n', "\n    ").as_str());
    out.append("\n}\n\n");
    out
}

/// Generates the root of the crate for a world, the interfaces that it imports and the
/// modules with their stubs.
pub fn generate_lib_rs(world: &str, interfaces: &Vec<String>, modules: &Vec<Named>) -> (r:
    String)
    ensures
        r@ == lib_rs_text(world@, text::texts(interfaces@), named::named_texts(modules@)),
{
    let mut out = "wit_bindgen::generate!({\n    path: \"target/wit\",\n    world: \"".to_string();
    out.append(world);
    out.append(
        "\",\n    generate_unused_types: true,\n    additional_derives: [serde::Deserialize, serde::Serialize, process_macros::SerdeJsonInto],\n});\n\n/// Generated caller utilities for RPC function stubs\n\npub use hyperware_process_lib::hyperapp::AppSendError;\npub use hyperware_process_lib::hyperapp::send;\npub use hyperware_process_lib::{Address as ProcessAddress, Request};\nuse serde_json::json;\n\n",
    );
    out.append(generate_uses(interfaces).as_str());
    let ghost head = out@;
    let ghost all = named::named_texts(modules@);
    let mut i: usize = 0;
    assert(head + Seq::<char>::empty() == head);
    while i < modules.len()
        invariant
            i <= modules.len(),
            all == named::named_texts(modules@),
            out@ == head + module_blocks(all.take(i as int)),
        decreases modules.len() - i,
    {
        let ghost before = module_blocks(all.take(i as int));
        out.append(module_block_for(&modules[i]).as_str());
        proof {
            assert(all.take(i + 1).drop_last() == all.take(i as int));
            assert(head + before + module_block(all[i as int]) == head + (before + module_block(
                all[i as int],
            )));
        }
        i = i + 1;
    }
    assert(all.take(all.len() as int) == all);
    out
}

/// What the files hold, file by file.
pub open spec fn contents_of(files: Seq<WitText>) -> Seq<Seq<char>> {
    Seq::new(files.len(), |i: int| files[i].content)
}

/// The interfaces that a world in the files imports.
pub open spec fn interfaces_of(files: Seq<WitText>, world: Seq<char>) -> Seq<Seq<char>> {
    worlds::world_interfaces(contents_of(files), world)
}

/// The types in the signatures for a world can be converted.
pub open spec fn world_convertible(files: Seq<WitText>, world: Seq<char>) -> bool {
    forall|i: int|
        0 <= i < files.len() ==> file_convertible(
            #[trigger] files[i],
            interfaces_of(files, world),
        )
}

/// The root of the crate for a world in the files.
pub open spec fn crate_root_text(files: Seq<WitText>, world: Seq<char>) -> Seq<char> {
    let interfaces = interfaces_of(files, world);
    lib_rs_text(world, interfaces, file_modules(files, interfaces))
}

/// What the files hold, file by file.
pub fn file_contents(files: &Vec<WitFile>) -> (r: Vec<String>)
    ensures
        text::texts(r@) == contents_of(wit_texts(files@)),
{
    let ghost all = contents_of(wit_texts(files@));
    let mut out: Vec<String> = Vec::new();
    let mut i: usize = 0;
    assert(text::texts(out@) == all.take(0));
    while i < files.len()
        invariant
            i <= files.len(),
            all == contents_of(wit_texts(files@)),
            text::texts(out@) == all.take(i as int),
        decreases files.len() - i,
    {
        let ghost before = text::texts(out@);
        out.push(files[i].content.clone());
        assert(text::texts(out@) == before.push(all[i as int]));
        assert(before.push(all[i as int]) == all.take(i + 1));
        i = i + 1;
    }
    assert(all.take(all.len() as int) == all);
    out
}

/// Whether the types in the signatures for a world can be converted.
pub fn is_world_convertible(files: &Vec<WitFile>, world: &str) -> (r: bool)
    ensures
        r == world_convertible(wit_texts(files@), world@),
{
    let ghost all = wit_texts(files@);
    let interfaces = worlds::find_interfaces_in_world(&file_contents(files), world);
    let good = are_files_convertible(files, &interfaces);
    proof {
        if good {
            assert forall|i: int| 0 <= i < all.len() implies file_convertible(
                #[trigger] all[i],
                interfaces_of(all, world@),
            ) by {
                assert(all[i] == files@[i]@);
            }
        } else {
            let i = choose|i: int|
                0 <= i < files@.len() && !file_convertible(
                    (#[trigger] files@[i])@,
                    text::texts(interfaces@),
                );
            assert(all[i] == files@[i]@);
        }
    }
    good
}

/// Generates the root of the crate for a world in the files.
pub fn generate_crate_root(files: &Vec<WitFile>, world: &str) -> (r: String)
    requires
        world_convertible(wit_texts(files@), world@),
    ensures
        r@ == crate_root_text(wit_texts(files@), world@),
{
    let ghost all = wit_texts(files@);
    let interfaces = worlds::find_interfaces_in_world(&file_contents(files), world);
    assert forall|i: int| 0 <= i < files@.len() implies file_convertible(
        (#[trigger] files@[i])@,
        text::texts(interfaces@),
    ) by {
        assert(all[i] == files@[i]@);
    }
    let modules = generate_modules(files, &interfaces);
    generate_lib_rs(world, &interfaces, &modules)
}

// ---------------------------------------------------------------------------
// Laws
// ---------------------------------------------------------------------------

/// The name of the generated crate, as the manifest spells it, holds no hyphen.
pub proof fn law_manifest_name(package_name: Seq<char>)
    ensures
        !naming::snake_case(crate_name_text(package_name)).contains('-'),
{
    naming::law_snake_case(crate_name_text(package_name));
}

/// What each interface holds is imported, and once.
pub proof fn law_use_names(interfaces: Seq<Seq<char>>)
    ensures
        use_names(interfaces).no_duplicates(),
        forall|name: Seq<char>| #[trigger]
            use_names(interfaces).contains(name) <==> exists|i: int|
                0 <= i < interfaces.len() && naming::snake_case(#[trigger] interfaces[i]) == name,
    decreases interfaces.len(),
{
    if interfaces.len() > 0 {
        let init = interfaces.drop_last();
        let before = use_names(init);
        let last = naming::snake_case(interfaces.last());
        let all = use_names(interfaces);
        law_use_names(init);
        assert(naming::snake_case(interfaces[interfaces.len() - 1]) == last);
        assert forall|name: Seq<char>| #[trigger] all.contains(name) <==> exists|i: int|
            0 <= i < interfaces.len() && naming::snake_case(#[trigger] interfaces[i]) == name by {
            if all.contains(name) && name != last {
                let k = choose|k: int| 0 <= k < all.len() && all[k] == name;
                assert(before[k] == name);
                assert(before.contains(name));
                let i = choose|i: int|
                    0 <= i < init.len() && naming::snake_case(#[trigger] init[i]) == name;
                assert(interfaces[i] == init[i]);
            }
            if exists|i: int|
                0 <= i < interfaces.len() && naming::snake_case(#[trigger] interfaces[i]) == name {
                let i = choose|i: int|
                    0 <= i < interfaces.len() && naming::snake_case(#[trigger] interfaces[i])
                        == name;
                if i < init.len() {
                    assert(init[i] == interfaces[i]);
                    assert(before.contains(name));
                }
                if before.contains(name) {
                    let k = choose|k: int| 0 <= k < before.len() && before[k] == name;
                    assert(all[k] == name);
                } else {
                    assert(all[before.len() as int] == name);
                }
            }
        }
    }
}

/// A file for which there is a module.
#[verifier::opaque]
pub open spec fn makes_module(file: WitText, interfaces: Seq<Seq<char>>) -> bool {
    is_interface_file(file, interfaces) && file_signatures(file).len() > 0
}

/// The module for a file.
#[verifier::opaque]
pub open spec fn file_module(file: WitText) -> NamedText {
    NamedText {
        name: naming::snake_case(file.name),
        text: stubs::module_text(file_signatures(file)),
    }
}

/// There is a module for the file at position `i`, and no later file takes its place.
pub open spec fn has_module(files: Seq<WitText>, interfaces: Seq<Seq<char>>, i: int) -> bool {
    &&& makes_module(files[i], interfaces)
    &&& forall|j: int|
        i < j < files.len() && makes_module(#[trigger] files[j], interfaces) ==> file_module(
            files[j],
        ).name != file_module(files[i]).name
}

/// A later file only matters if it takes the place.
proof fn lemma_has_module(files: Seq<WitText>, interfaces: Seq<Seq<char>>, i: int)
    requires
        0 <= i < files.len() - 1,
    ensures
        has_module(files, interfaces, i) <==> has_module(files.drop_last(), interfaces, i) && !(
        makes_module(files.last(), interfaces) && file_module(files.last()).name == file_module(
            files[i],
        ).name),
{
    let init = files.drop_last();
    if has_module(files, interfaces, i) {
        assert forall|j: int| i < j < init.len() && makes_module(#[trigger] init[j], interfaces)
            implies file_module(init[j]).name != file_module(init[i]).name by {
            assert(init[j] == files[j]);
        }
        assert(files[files.len() - 1] == files.last());
    }
    if has_module(init, interfaces, i) && !(makes_module(files.last(), interfaces) && file_module(
        files.last(),
    ).name == file_module(files[i]).name) {
        assert forall|j: int| i < j < files.len() && makes_module(#[trigger] files[j], interfaces)
            implies file_module(files[j]).name != file_module(files[i]).name by {
            if j < init.len() {
                assert(init[j] == files[j]);
            }
        }
    }
}

/// The modules have different names, and they are those of the files whose module no
/// later file replaces.
pub proof fn law_file_modules(files: Seq<WitText>, interfaces: Seq<Seq<char>>)
    ensures
        named::distinct_names(file_modules(files, interfaces)),
        forall|m: NamedText| #[trigger]
            file_modules(files, interfaces).contains(m) <==> exists|i: int|
                0 <= i < files.len() && #[trigger] has_module(files, interfaces, i) && m
                    == file_module(files[i]),
    decreases files.len(),
{
    reveal(makes_module);
    reveal(file_module);
    if files.len() > 0 {
        let init = files.drop_last();
        law_file_modules(init, interfaces);
        if makes_module(files.last(), interfaces) {
            named::law_with_entry(file_modules(init, interfaces), file_module(files.last()));
        }
        assert forall|m: NamedText| #[trigger]
            file_modules(files, interfaces).contains(m) <==> exists|i: int|
                0 <= i < files.len() && #[trigger] has_module(files, interfaces, i) && m
                    == file_module(files[i]) by {
            lemma_module_member(files, interfaces, m);
        }
    }
}

/// Membership among the modules, with the last file added.
proof fn lemma_module_member(files: Seq<WitText>, interfaces: Seq<Seq<char>>, m: NamedText)
    requires
        files.len() > 0,
        file_modules(files.drop_last(), interfaces).contains(m) <==> exists|i: int|
            0 <= i < files.drop_last().len() && #[trigger] has_module(
                files.drop_last(),
                interfaces,
                i,
            ) && m == file_module(files.drop_last()[i]),
        file_modules(files, interfaces).contains(m) <==> if makes_module(
            files.last(),
            interfaces,
        ) {
            m == file_module(files.last()) || (file_modules(
                files.drop_last(),
                interfaces,
            ).contains(m) && m.name != file_module(files.last()).name)
        } else {
            file_modules(files.drop_last(), interfaces).contains(m)
        },
    ensures
        file_modules(files, interfaces).contains(m) <==> exists|i: int|
            0 <= i < files.len() && #[trigger] has_module(files, interfaces, i) && m
                == file_module(files[i]),
{
    let init = files.drop_last();
    let last = files.len() - 1;
    let adds = makes_module(files.last(), interfaces);
    if file_modules(files, interfaces).contains(m) {
        if adds && m == file_module(files.last()) {
            assert(has_module(files, interfaces, last));
        } else {
            let i = choose|i: int|
                0 <= i < init.len() && #[trigger] has_module(init, interfaces, i) && m
                    == file_module(init[i]);
            lemma_has_module(files, interfaces, i);
            assert(init[i] == files[i]);
            assert(has_module(files, interfaces, i));
        }
    }
    if exists|i: int|
        0 <= i < files.len() && #[trigger] has_module(files, interfaces, i) && m == file_module(
            files[i],
        ) {
        let i = choose|i: int|
            0 <= i < files.len() && #[trigger] has_module(files, interfaces, i) && m
                == file_module(files[i]);
        if i < last {
            lemma_has_module(files, interfaces, i);
            assert(init[i] == files[i]);
            assert(has_module(init, interfaces, i));
        }
    }
}

/// A module stands among the modules.
proof fn lemma_module_blocks(modules: Seq<NamedText>, k: int)
    requires
        0 <= k < modules.len(),
    ensures
        text::contains(module_blocks(modules), module_block(modules[k])),
    decreases modules.len(),
{
    let before = module_blocks(modules.drop_last());
    let last = module_block(modules.last());
    let all = module_blocks(modules);
    if k == modules.len() - 1 {
        assert(all.subrange(before.len() as int, all.len() as int) == last);
        assert(text::occurs_at(all, last, before.len() as int));
    } else {
        lemma_module_blocks(modules.drop_last(), k);
        assert(all.subrange(0, before.len() as int) == before);
        assert(text::occurs_at(all, before, 0));
        text::lemma_contains_trans(all, before, module_block(modules[k]));
    }
}

/// The root of the crate for a world holds the module of every file that describes an
/// interface of the world and has signatures, unless a later file takes its place.
pub proof fn law_crate_root(files: Seq<WitText>, world: Seq<char>, i: int)
    requires
        0 <= i < files.len(),
        has_module(files, interfaces_of(files, world), i),
    ensures
        text::contains(crate_root_text(files, world), module_block(file_module(files[i]))),
{
    let interfaces = interfaces_of(files, world);
    let modules = file_modules(files, interfaces);
    let module = file_module(files[i]);
    law_file_modules(files, interfaces);
    assert(modules.contains(module));
    let k = choose|k: int| 0 <= k < modules.len() && modules[k] == module;
    lemma_module_blocks(modules, k);
    let root = crate_root_text(files, world);
    let blocks = module_blocks(modules);
    let start = root.len() - blocks.len();
    assert(root.subrange(start, start + blocks.len()) == blocks);
    assert(text::occurs_at(root, blocks, start));
    text::lemma_contains_trans(root, blocks, module_block(module));
}

/// The crate of a package has the name of the package with `-caller-utils` behind it.
pub proof fn law_crate_name(package_name: Seq<char>)
    ensures
        crate_name_text(package_name) == package_name + "-caller-utils"@,
{
}

/// Two generated manifests differ in the name of the crate and in the dependency only: the
/// name is that of the package, and the dependency is a line of its own.
pub proof fn law_cargo_toml(
    crate_name: Seq<char>,
    dependency: Seq<char>,
    other_name: Seq<char>,
    other_dependency: Seq<char>,
)
    ensures
        exists|a: Seq<char>, b: Seq<char>, c: Seq<char>|
            {
                &&& a == "[package]\nname = \""@
                &&& text::starts_with(b, "\"\nversion = "@)
                &&& text::ends_with(b, "\nhyperware_process_lib = "@)
                &&& text::starts_with(c, "\nonce_cell = "@)
                &&& cargo_toml_text(crate_name, dependency) == #[trigger] around(
                    a,
                    naming::snake_case(crate_name),
                    b,
                    dependency,
                    c,
                )
                &&& cargo_toml_text(other_name, other_dependency) == around(
                    a,
                    naming::snake_case(other_name),
                    b,
                    other_dependency,
                    c,
                )
            },
{
    let a = "[package]\nname = \""@;
    let b = "\"\nversion = \"0.1.0\"\nedition = \"2021\"\npublish = false\n\n[dependencies]\nanyhow = \"1.0\"\nprocess_macros = \"0.1.0\"\nfutures-util = \"0.3\"\nserde = { version = \"1.0\", features = [\"derive\"] }\nserde_json = \"1.0\"\nhyperware_process_lib = "@;
    let c = "\nonce_cell = \"1.20.2\"\nfutures = \"0.3\"\nuuid = { version = \"1.0\" }\nwit-bindgen = \"0.41.0\"\n\n[lib]\ncrate-type = [\"cdylib\", \"lib\"]\n"@;
    lemma_manifest_middle();
    assert(cargo_toml_text(crate_name, dependency) == around(
        a,
        naming::snake_case(crate_name),
        b,
        dependency,
        c,
    ));
    assert(cargo_toml_text(other_name, other_dependency) == around(
        a,
        naming::snake_case(other_name),
        b,
        other_dependency,
        c,
    ));
}

/// Five texts one after the other.
pub open spec fn around(
    a: Seq<char>,
    x: Seq<char>,
    b: Seq<char>,
    y: Seq<char>,
    c: Seq<char>,
) -> Seq<char> {
    a + x + b + y + c
}

/// What stands behind the name and around the dependency in a generated manifest.
proof fn lemma_manifest_middle()
    ensures
        ({
            let b = "\"\nversion = \"0.1.0\"\nedition = \"2021\"\npublish = false\n\n[dependencies]\nanyhow = \"1.0\"\nprocess_macros = \"0.1.0\"\nfutures-util = \"0.3\"\nserde = { version = \"1.0\", features = [\"derive\"] }\nserde_json = \"1.0\"\nhyperware_process_lib = "@;
            let c = "\nonce_cell = \"1.20.2\"\nfutures = \"0.3\"\nuuid = { version = \"1.0\" }\nwit-bindgen = \"0.41.0\"\n\n[lib]\ncrate-type = [\"cdylib\", \"lib\"]\n"@;
            &&& text::starts_with(b, "\"\nversion = "@)
            &&& text::ends_with(b, "\nhyperware_process_lib = "@)
            &&& text::starts_with(c, "\nonce_cell = "@)
        }),
{
    reveal_strlit(
        "\"\nversion = \"0.1.0\"\nedition = \"2021\"\npublish = false\n\n[dependencies]\nanyhow = \"1.0\"\nprocess_macros = \"0.1.0\"\nfutures-util = \"0.3\"\nserde = { version = \"1.0\", features = [\"derive\"] }\nserde_json = \"1.0\"\nhyperware_process_lib = ",
    );
    reveal_strlit(
        "\nonce_cell = \"1.20.2\"\nfutures = \"0.3\"\nuuid = { version = \"1.0\" }\nwit-bindgen = \"0.41.0\"\n\n[lib]\ncrate-type = [\"cdylib\", \"lib\"]\n",
    );
    reveal_strlit("\"\nversion = ");
    reveal_strlit("\nhyperware_process_lib = ");
    reveal_strlit("\nonce_cell = ");
    let b = "\"\nversion = \"0.1.0\"\nedition = \"2021\"\npublish = false\n\n[dependencies]\nanyhow = \"1.0\"\nprocess_macros = \"0.1.0\"\nfutures-util = \"0.3\"\nserde = { version = \"1.0\", features = [\"derive\"] }\nserde_json = \"1.0\"\nhyperware_process_lib = "@;
    let c = "\nonce_cell = \"1.20.2\"\nfutures = \"0.3\"\nuuid = { version = \"1.0\" }\nwit-bindgen = \"0.41.0\"\n\n[lib]\ncrate-type = [\"cdylib\", \"lib\"]\n"@;
    assert(b.subrange(0, 12) == "\"\nversion = "@);
    assert(b.subrange(b.len() - 25, b.len() as int) == "\nhyperware_process_lib = "@);
    assert(c.subrange(0, 13) == "\nonce_cell = "@);
}

/// A file describes an interface of a world exactly if it holds no world and one of the
/// interfaces has its name, but for percent signs before them. The signatures in it are
/// those that are read from its lines, and they can be converted exactly if the type of
/// each field can.
pub proof fn law_interface_file(file: WitText, interfaces: Seq<Seq<char>>)
    ensures
        is_interface_file(file, interfaces) <==> !text::contains(file.content, "world "@)
            && exists|i: int|
            0 <= i < interfaces.len() && worlds::unmarked(#[trigger] interfaces[i])
                == worlds::unmarked(file.name),
        file_signatures(file) == signature::definitions(
            text::lines(file.content),
            None,
        ).signatures,
        file_convertible(file, interfaces) <==> (is_interface_file(file, interfaces) ==> forall|
            i: int,
            k: int,
        |
            0 <= i < file_signatures(file).len() && 0 <= k < file_signatures(file)[i].fields.len()
                ==> wit_types::convertible(
                (#[trigger] file_signatures(file)[i].fields[k]).wit_type,
            )),
{
    let all = file_signatures(file);
    if file_convertible(file, interfaces) && is_interface_file(file, interfaces) {
        assert forall|i: int, k: int|
            0 <= i < all.len() && 0 <= k < all[i].fields.len() implies wit_types::convertible(
            (#[trigger] all[i].fields[k]).wit_type,
        ) by {
            assert(stubs::signature_convertible(all[i]));
        }
    }
}

/// A file that describes an interface and holds signatures adds a module, and any other
/// adds nothing.
pub proof fn law_one_more_file(
    files: Seq<WitText>,
    file: WitText,
    interfaces: Seq<Seq<char>>,
)
    ensures
        file_modules(Seq::empty(), interfaces) == Seq::<NamedText>::empty(),
        is_interface_file(file, interfaces) && file_signatures(file).len() > 0 ==> file_modules(
            files.push(file),
            interfaces,
        ) == named::with_entry(
            file_modules(files, interfaces),
            NamedText {
                name: naming::snake_case(file.name),
                text: stubs::module_text(file_signatures(file)),
            },
        ),
        !is_interface_file(file, interfaces) || file_signatures(file).len() == 0 ==> file_modules(
            files.push(file),
            interfaces,
        ) == file_modules(files, interfaces),
{
    assert(files.push(file).drop_last() == files);
}

/// The imports are a heading, a line for each name and an empty line, or nothing without a
/// name. A name comes behind those of the interfaces before it, unless it is one of them.
pub proof fn law_use_block(interfaces: Seq<Seq<char>>, interface: Seq<char>)
    ensures
        use_names(Seq::empty()) == Seq::<Seq<char>>::empty(),
        use_names(interfaces.push(interface)) == if use_names(interfaces).contains(
            naming::snake_case(interface),
        ) {
            use_names(interfaces)
        } else {
            use_names(interfaces).push(naming::snake_case(interface))
        },
        use_names(interfaces).len() == 0 ==> use_block(interfaces) == Seq::<char>::empty(),
        use_names(interfaces).len() > 0 ==> use_block(interfaces)
            == "// Import types from each interface\n"@ + text::concat(
            Seq::new(
                use_names(interfaces).len(),
                |i: int|
                    "pub use crate::hyperware::process::"@ + use_names(interfaces)[i] + "::*;\n"@,
            ),
        ) + "\n"@,
{
    assert(interfaces.push(interface).drop_last() == interfaces);
    lemma_use_lines(use_names(interfaces));
}

/// The lines that import, one after the other.
proof fn lemma_use_lines(names: Seq<Seq<char>>)
    ensures
        use_lines(names) == text::concat(
            Seq::new(
                names.len(),
                |i: int| "pub use crate::hyperware::process::"@ + names[i] + "::*;\n"@,
            ),
        ),
    decreases names.len(),
{
    let all = Seq::new(
        names.len(),
        |i: int| "pub use crate::hyperware::process::"@ + names[i] + "::*;\n"@,
    );
    if names.len() > 0 {
        let init = names.drop_last();
        let fewer = Seq::new(
            init.len(),
            |i: int| "pub use crate::hyperware::process::"@ + init[i] + "::*;\n"@,
        );
        lemma_use_lines(init);
        assert(all.drop_last() == fewer);
        let x = text::concat(fewer);
        assert(x + "pub use crate::hyperware::process::"@ + names.last() + "::*;\n"@ == x + (
        "pub use crate::hyperware::process::"@ + names.last() + "::*;\n"@));
    }
}

/// The modules of two lists are those of the first and then those of the second, each
/// once: a comment, the module with its name, and its text indented.
pub proof fn law_module_blocks(a: Seq<NamedText>, b: Seq<NamedText>, module: NamedText)
    ensures
        module_blocks(a + b) == module_blocks(a) + module_blocks(b),
        module_blocks(Seq::empty()) == Seq::<char>::empty(),
        module_blocks(seq![module]) == text::concat(
            seq![
                "/// Generated RPC stubs for the "@,
                module.name,
                " interface\npub mod "@,
                module.name,
                " {\n    use crate::*;\n\n    "@,
            ],
        ) + text::replace_char(module.text, '\n', "\n    "@) + "\n}\n\n"@,
    decreases b.len(),
{
    let none = Seq::<NamedText>::empty();
    assert(seq![module].drop_last() == none);
    assert(module_blocks(none) == Seq::<char>::empty());
    assert(Seq::<char>::empty() + module_block(module) == module_block(module));
    text_laws::lemma_concat_five(
        "/// Generated RPC stubs for the "@,
        module.name,
        " interface\npub mod "@,
        module.name,
        " {\n    use crate::*;\n\n    "@,
    );
    if b.len() == 0 {
        assert(a + b == a);
        assert(module_blocks(a) + Seq::<char>::empty() == module_blocks(a));
    } else {
        let init = b.drop_last();
        law_module_blocks(a, init, module);
        assert((a + b).drop_last() == a + init);
        let x = module_blocks(a);
        let y = module_blocks(init);
        let z = module_block(b.last());
        assert(x + y + z == x + (y + z));
    }
}

/// The root of the crate is a beginning that depends on the world alone, the imports, and
/// the modules. The beginnings for two worlds differ in the name of the world only.
pub proof fn law_lib_rs(
    world: Seq<char>,
    other: Seq<char>,
    interfaces: Seq<Seq<char>>,
    modules: Seq<NamedText>,
)
    ensures
        lib_rs_text(world, interfaces, modules) == lib_rs_text(world, Seq::empty(), Seq::empty())
            + use_block(interfaces) + module_blocks(modules),
        exists|a: Seq<char>, b: Seq<char>|
            {
                &&& text::ends_with(a, "    world: \""@)
                &&& text::starts_with(b, "\",\n"@)
                &&& lib_rs_text(world, Seq::empty(), Seq::empty()) == #[trigger] (a + world + b)
                &&& lib_rs_text(other, Seq::empty(), Seq::empty()) == a + other + b
            },
{
    let none = Seq::<Seq<char>>::empty();
    let empty = Seq::<char>::empty();
    let a = "wit_bindgen::generate!({\n    path: \"target/wit\",\n    world: \""@;
    let b = "\",\n    generate_unused_types: true,\n    additional_derives: [serde::Deserialize, serde::Serialize, process_macros::SerdeJsonInto],\n});\n\n/// Generated caller utilities for RPC function stubs\n\npub use hyperware_process_lib::hyperapp::AppSendError;\npub use hyperware_process_lib::hyperapp::send;\npub use hyperware_process_lib::{Address as ProcessAddress, Request};\nuse serde_json::json;\n\n"@;
    assert(use_names(none) == none);
    assert(use_block(none) == empty);
    assert(module_blocks(Seq::empty()) == empty);
    assert(a + world + b + empty + empty == a + world + b);
    assert(a + other + b + empty + empty == a + other + b);
    lemma_root_middle();
}

/// What stands around the name of the world in the root.
proof fn lemma_root_middle()
    ensures
        text::ends_with(
            "wit_bindgen::generate!({\n    path: \"target/wit\",\n    world: \""@,
            "    world: \""@,
        ),
        text::starts_with(
            "\",\n    generate_unused_types: true,\n    additional_derives: [serde::Deserialize, serde::Serialize, process_macros::SerdeJsonInto],\n});\n\n/// Generated caller utilities for RPC function stubs\n\npub use hyperware_process_lib::hyperapp::AppSendError;\npub use hyperware_process_lib::hyperapp::send;\npub use hyperware_process_lib::{Address as ProcessAddress, Request};\nuse serde_json::json;\n\n"@,
            "\",\n"@,
        ),
{
    reveal_strlit("wit_bindgen::generate!({\n    path: \"target/wit\",\n    world: \"");
    reveal_strlit("    world: \"");
    reveal_strlit(
        "\",\n    generate_unused_types: true,\n    additional_derives: [serde::Deserialize, serde::Serialize, process_macros::SerdeJsonInto],\n});\n\n/// Generated caller utilities for RPC function stubs\n\npub use hyperware_process_lib::hyperapp::AppSendError;\npub use hyperware_process_lib::hyperapp::send;\npub use hyperware_process_lib::{Address as ProcessAddress, Request};\nuse serde_json::json;\n\n",
    );
    reveal_strlit("\",\n");
    let a = "wit_bindgen::generate!({\n    path: \"target/wit\",\n    world: \""@;
    let b = "\",\n    generate_unused_types: true,\n    additional_derives: [serde::Deserialize, serde::Serialize, process_macros::SerdeJsonInto],\n});\n\n/// Generated caller utilities for RPC function stubs\n\npub use hyperware_process_lib::hyperapp::AppSendError;\npub use hyperware_process_lib::hyperapp::send;\npub use hyperware_process_lib::{Address as ProcessAddress, Request};\nuse serde_json::json;\n\n"@;
    assert(a.subrange(a.len() - 12, a.len() as int) == "    world: \""@);
    assert(b.subrange(0, 3) == "\",\n"@);
}

/// The root for a world in the files is the one for the interfaces that the world imports
/// and for the modules of the files that describe them. It can be generated exactly if
/// each of these files can be converted.
pub proof fn law_crate_root_parts(
    files: Seq<WitText>,
    world: Seq<char>,
    contents: Seq<Seq<char>>,
)
    requires
        contents.len() == files.len(),
        forall|i: int| 0 <= i < files.len() ==> #[trigger] contents[i] == files[i].content,
    ensures
        ({
            let interfaces = worlds::world_interfaces(contents, world);
            &&& crate_root_text(files, world) == lib_rs_text(
                world,
                interfaces,
                file_modules(files, interfaces),
            )
            &&& world_convertible(files, world) <==> forall|i: int|
                0 <= i < files.len() ==> file_convertible(#[trigger] files[i], interfaces)
        }),
{
    assert(contents_of(files) == contents);
}

} // verus!
