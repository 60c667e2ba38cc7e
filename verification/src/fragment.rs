//! The canonical in-memory model of one ABI entry (a fragment) and its
//! parameters, together with the two derived notions the generator rests
//! on: the uniqueness key that governs deduplication and the identifier
//! under which a fragment is exported.
use vstd::prelude::*;
use vstd::string::StringExecFns;

use crate::error::CodegenError;
use crate::text::join_strings;
use crate::text::join_with;
use crate::text::replace_brackets;
use crate::text::replace_brackets_str;
use crate::text::sort_seqs;
use crate::text::sort_strings;
use crate::text::views_of_strings;

verus! {

/// One input slot of a fragment.
#[derive(Debug, Clone, PartialEq, Eq, Hash)]
pub struct FragmentInput {
    pub name: Option<String>,
    pub ty: String,
    pub indexed: Option<bool>,
    pub internal_type: Option<String>,
}

/// One output slot of a fragment; outputs are never indexed.
#[derive(Debug, Clone, PartialEq, Eq, Hash)]
pub struct FragmentOutput {
    pub name: Option<String>,
    pub ty: String,
    pub internal_type: Option<String>,
}

/// One ABI entry: a function, event, constructor, error or similar.
#[derive(Debug, Clone, PartialEq, Eq, Hash)]
pub struct Fragment {
    pub name: Option<String>,
    pub kind: String,
    pub inputs: Vec<FragmentInput>,
    pub outputs: Option<Vec<FragmentOutput>>,
    pub state_mutability: Option<String>,
    pub anonymous: Option<bool>,
}

/// The mathematical value of a `FragmentInput`.
pub struct InputView {
    pub name: Option<Seq<char>>,
    pub ty: Seq<char>,
    pub indexed: Option<bool>,
    pub internal_type: Option<Seq<char>>,
}

/// The mathematical value of a `FragmentOutput`.
pub struct OutputView {
    pub name: Option<Seq<char>>,
    pub ty: Seq<char>,
    pub internal_type: Option<Seq<char>>,
}

/// The mathematical value of a `Fragment`.
pub struct FragmentView {
    pub name: Option<Seq<char>>,
    pub kind: Seq<char>,
    pub inputs: Seq<InputView>,
    pub outputs: Option<Seq<OutputView>>,
    pub state_mutability: Option<Seq<char>>,
    pub anonymous: Option<bool>,
}

pub open spec fn view_of_opt_string(s: Option<String>) -> Option<Seq<char>> {
    match s {
        Some(x) => Some(x@),
        None => None,
    }
}

impl View for FragmentInput {
    type V = InputView;

    open spec fn view(&self) -> InputView {
        InputView {
            name: view_of_opt_string(self.name),
            ty: self.ty@,
            indexed: self.indexed,
            internal_type: view_of_opt_string(self.internal_type),
        }
    }
}

impl View for FragmentOutput {
    type V = OutputView;

    open spec fn view(&self) -> OutputView {
        OutputView {
            name: view_of_opt_string(self.name),
            ty: self.ty@,
            internal_type: view_of_opt_string(self.internal_type),
        }
    }
}

impl View for Fragment {
    type V = FragmentView;

    open spec fn view(&self) -> FragmentView {
        FragmentView {
            name: view_of_opt_string(self.name),
            kind: self.kind@,
            inputs: self.inputs@.map_values(|p: FragmentInput| p@),
            outputs: match self.outputs {
                Some(os) => Some(os@.map_values(|p: FragmentOutput| p@)),
                None => None,
            },
            state_mutability: view_of_opt_string(self.state_mutability),
            anonymous: self.anonymous,
        }
    }
}

/// The views of a sequence of fragments.
pub open spec fn views_of_fragments(s: Seq<Fragment>) -> Seq<FragmentView> {
    s.map_values(|f: Fragment| f@)
}

/// Whether the fragment carries a usable (present and non-empty) name.
pub open spec fn has_name(f: FragmentView) -> bool {
    match f.name {
        Some(n) => n.len() != 0,
        None => false,
    }
}

/// The fragment's name, or the empty sequence when it has none.
pub open spec fn name_or_empty(f: FragmentView) -> Seq<char> {
    match f.name {
        Some(n) => n,
        None => Seq::empty(),
    }
}

/// The input type names, in declaration order.
pub open spec fn input_types(f: FragmentView) -> Seq<Seq<char>> {
    f.inputs.map_values(|p: InputView| p.ty)
}

/// The output type names, in declaration order; absent outputs count as
/// none.
pub open spec fn output_types(f: FragmentView) -> Seq<Seq<char>> {
    match f.outputs {
        Some(os) => os.map_values(|p: OutputView| p.ty),
        None => Seq::empty(),
    }
}

/// The key under which fragments are deduplicated: name, kind, sorted
/// input types and sorted output types, joined with `:` (types within a
/// group joined with `,`). Parameter order and names are deliberately
/// discarded here, although both are preserved in the emitted
/// declaration.
pub open spec fn unique_key_of(f: FragmentView) -> Seq<char> {
    name_or_empty(f) + seq![':'] + f.kind + seq![':'] + join_with(
        sort_seqs(input_types(f)),
        seq![','],
    ) + seq![':'] + join_with(sort_seqs(output_types(f)), seq![','])
}

/// The type-qualified identifier used when several fragments share a
/// name: the name, an underscore, and the input type names joined by
/// underscores, each with `[]` rewritten to `Array`.
pub open spec fn explicit_identifier_of(f: FragmentView) -> Seq<char> {
    name_or_empty(f) + seq!['_'] + join_with(
        input_types(f).map_values(|t: Seq<char>| replace_brackets(t)),
        seq!['_'],
    )
}

/// The identifier under which the fragment is exported.
pub open spec fn identifier_of(f: FragmentView, explicit: bool) -> Seq<char> {
    if explicit {
        explicit_identifier_of(f)
    } else {
        name_or_empty(f)
    }
}

impl Fragment {
    /// The fragment's deduplication key, exactly `unique_key_of`.
    pub fn get_unique_key(&self) -> (r: String)
        ensures
            r@ == unique_key_of(self@),
    {
        let mut input_names: Vec<String> = Vec::new();
        let mut i: usize = 0;
        while i < self.inputs.len()
            invariant
                i <= self.inputs@.len(),
                views_of_strings(input_names@) =~= input_types(self@).take(i as int),
            decreases self.inputs@.len() - i,
        {
            let ghost before: Seq<String> = input_names@;
            input_names.push(self.inputs[i].ty.clone());
            proof {
                assert(input_types(self@)[i as int] == self.inputs@[i as int].ty@);
                assert(views_of_strings(input_names@) =~= views_of_strings(before).push(
                    self.inputs@[i as int].ty@,
                ));
                assert(views_of_strings(input_names@) =~= input_types(self@).take(i + 1));
            }
            i = i + 1;
        }
        proof {
            assert(input_types(self@).take(self.inputs@.len() as int) =~= input_types(self@));
        }
        let sorted_inputs: Vec<String> = sort_strings(input_names);
        let inputs_joined: String = join_strings(&sorted_inputs, ",");

        let mut output_names: Vec<String> = Vec::new();
        match &self.outputs {
            Some(os) => {
                let mut j: usize = 0;
                while j < os.len()
                    invariant
                        j <= os@.len(),
                        self.outputs matches Some(osx) && osx@ == os@,
                        views_of_strings(output_names@) =~= output_types(self@).take(j as int),
                    decreases os@.len() - j,
                {
                    let ghost before: Seq<String> = output_names@;
                    output_names.push(os[j].ty.clone());
                    proof {
                        assert(output_types(self@)[j as int] == os@[j as int].ty@);
                        assert(views_of_strings(output_names@) =~= views_of_strings(before).push(
                            os@[j as int].ty@,
                        ));
                        assert(views_of_strings(output_names@) =~= output_types(self@).take(
                            j + 1,
                        ));
                    }
                    j = j + 1;
                }
            },
            None => {},
        }
        proof {
            assert(views_of_strings(output_names@) =~= output_types(self@));
        }
        let sorted_outputs: Vec<String> = sort_strings(output_names);
        let outputs_joined: String = join_strings(&sorted_outputs, ",");

        let mut r: String = match &self.name {
            Some(n) => n.clone(),
            None => String::new(),
        };
        r.append(":");
        r.append(self.kind.as_str());
        r.append(":");
        r.append(inputs_joined.as_str());
        r.append(":");
        r.append(outputs_joined.as_str());
        proof {
            reveal_strlit(":");
            assert(":"@ =~= seq![':']);
            reveal_strlit(",");
            assert(","@ =~= seq![',']);
            assert(inputs_joined@ == join_with(sort_seqs(input_types(self@)), seq![',']));
            assert(outputs_joined@ == join_with(sort_seqs(output_types(self@)), seq![',']));
            assert(r@ =~= unique_key_of(self@));
        }
        r
    }

    /// The export identifier. Fails with `MissingName` when the name is
    /// absent or empty; otherwise returns the bare name, or the
    /// type-qualified form when `use_explicit_identifier` is set.
    pub fn identifier(&self, use_explicit_identifier: bool) -> (r: Result<String, CodegenError>)
        ensures
            has_name(self@) ==> (r matches Ok(s) && s@ == identifier_of(
                self@,
                use_explicit_identifier,
            )),
            !has_name(self@) ==> (r matches Err(e) && e == CodegenError::MissingName),
    {
        let name: String = match &self.name {
            Some(n) => {
                if n.as_str().is_empty() {
                    return Err(CodegenError::MissingName);
                }
                n.clone()
            },
            None => {
                return Err(CodegenError::MissingName);
            },
        };
        if !use_explicit_identifier {
            return Ok(name);
        }
        let mut parts: Vec<String> = Vec::new();
        let ghost mapped: Seq<Seq<char>> = input_types(self@).map_values(
            |t: Seq<char>| replace_brackets(t),
        );
        let mut i: usize = 0;
        while i < self.inputs.len()
            invariant
                i <= self.inputs@.len(),
                mapped == input_types(self@).map_values(|t: Seq<char>| replace_brackets(t)),
                mapped.len() == self.inputs@.len(),
                views_of_strings(parts@) =~= mapped.take(i as int),
            decreases self.inputs@.len() - i,
        {
            let ghost before: Seq<String> = parts@;
            parts.push(replace_brackets_str(self.inputs[i].ty.as_str()));
            proof {
                assert(input_types(self@)[i as int] == self.inputs@[i as int].ty@);
                assert(mapped[i as int] == replace_brackets(self.inputs@[i as int].ty@));
                assert(views_of_strings(parts@) =~= views_of_strings(before).push(
                    replace_brackets(self.inputs@[i as int].ty@),
                ));
                assert(views_of_strings(parts@) =~= mapped.take(i + 1));
            }
            i = i + 1;
        }
        proof {
            assert(mapped.take(mapped.len() as int) =~= mapped);
        }
        let joined: String = join_strings(&parts, "_");
        let mut r: String = name;
        r.append("_");
        r.append(joined.as_str());
        proof {
            reveal_strlit("_");
            assert("_"@ =~= seq!['_']);
            assert(r@ =~= explicit_identifier_of(self@));
        }
        Ok(r)
    }
}

} // verus!
