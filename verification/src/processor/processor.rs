//! The processor: compiles the configuration (field definitions, phrases, field
//! types and tasks) into phrases and a node tree, then matches input sentences.
use vstd::prelude::*;
use crate::field_type::custom::{distinct_values, Custom};
use crate::field_type::{builtin_kind, builtin_type_name, get_default_type, FieldType};
use crate::node::base_node::{base_dump, base_outcome, BaseNode};
use crate::node::node::{
    all_ids_below, children_added, conflicting, lemma_same_tree_refl, node_result_is, path_added_among, same_input_message,
    same_tree, task_at, Node,
};
use crate::node::result::NodeResult;
use crate::phrase::field::Field;
use crate::phrase::group_phrase::GroupPhrase;
use crate::phrase::meta_phrase::MetaPhrase;
use crate::phrase::phrase::{all_below, Phrase, PhraseStore};
use crate::phrase::word_phrase::{phrase_words, WordPhrase};
use crate::processor::line::{line_segments, segment_views, segments, LineSegment, Segment};
use crate::processor::table::{first_key, lemma_first_key, lookup, Table};
use crate::text::{lemma_split_nonempty, split, split_seq, views};

verus! {

/// One configuration file: its name (without directory and extension) and contents.
pub struct ConfigFile {
    pub name: String,
    pub contents: String,
}

/// The configuration as read from disk.
pub struct ConfigFiles {
    /// The contents of `field_types.var`.
    pub field_types_var: String,
    /// The `.td` files of the `phrases` directory, in directory order.
    pub phrases: Vec<ConfigFile>,
    /// The `.td` files of the `field_types` directory.
    pub field_types: Vec<ConfigFile>,
    /// The `.task` files of the `tasks` directory, in directory order.
    pub tasks: Vec<ConfigFile>,
}

/// Where the first file named `name` is, or -1.
pub open spec fn file_index(files: Seq<ConfigFile>, name: Seq<char>) -> int
    decreases files.len(),
{
    if files.len() == 0 {
        -1
    } else {
        let i = file_index(files.drop_last(), name);
        if i >= 0 {
            i
        } else if files.last().name@ == name {
            files.len() - 1
        } else {
            -1
        }
    }
}

proof fn lemma_file_index(files: Seq<ConfigFile>, name: Seq<char>)
    ensures
        -1 <= file_index(files, name) < files.len(),
        file_index(files, name) == -1 <==> forall|j: int| 0 <= j < files.len() ==> files[j].name@ != name,
        file_index(files, name) >= 0 ==> files[file_index(files, name)].name@ == name && forall|j: int|
            0 <= j < file_index(files, name) ==> files[j].name@ != name,
    decreases files.len(),
{
    if files.len() > 0 {
        lemma_file_index(files.drop_last(), name);
        assert forall|j: int| 0 <= j < files.len() - 1 implies files[j] == files.drop_last()[j] by {}
    }
}

/// Finds the first file named `name`.
fn find_file(files: &Vec<ConfigFile>, name: &String) -> (res: Option<usize>)
    ensures
        res is None ==> file_index(files@, name@) == -1,
        res matches Some(i) ==> i == file_index(files@, name@) && i < files@.len() && files@[i as int].name@
            == name@,
{
    proof {
        lemma_file_index(files@, name@);
    }
    let mut i: usize = 0;
    while i < files.len()
        invariant
            i <= files@.len(),
            forall|j: int| 0 <= j < i ==> files@[j].name@ != name@,
        decreases files.len() - i,
    {
        if files[i].name == *name {
            proof {
                lemma_file_index(files@, name@);
                if file_index(files@, name@) != i {
                    assert(files@[file_index(files@, name@)].name@ == name@);
                }
            }
            return Some(i);
        }
        i = i + 1;
    }
    None
}

impl ConfigFiles {
    /// The number of phrase and field type files.
    pub open spec fn total(&self) -> int {
        (self.phrases@.len() + self.field_types@.len()) as int
    }

    /// The name under which file `i` is compiled: phrase files first, then field
    /// type files.
    pub open spec fn key(&self, i: int) -> Seq<char> {
        if i < self.phrases@.len() {
            "phrase:"@ + self.phrases@[i].name@
        } else {
            "field_type:"@ + self.field_types@[i - self.phrases@.len()].name@
        }
    }

    /// The lines of the phrase file `name`.
    pub open spec fn phrase_lines(&self, name: Seq<char>) -> Seq<Seq<char>> {
        split_seq(self.phrases@[file_index(self.phrases@, name)].contents@, '\n')
    }

    /// The lines of the field type file `name`.
    pub open spec fn field_type_lines(&self, name: Seq<char>) -> Seq<Seq<char>> {
        split_seq(self.field_types@[file_index(self.field_types@, name)].contents@, '\n')
    }
}

/// The phrase `id` is the text `seg` of a line (as a word phrase), or the phrase the
/// reference `seg` names: a field if `ftt` knows the name, a compiled phrase if not.
pub open spec fn segment_ok(s: Seq<Phrase>, ftt: Seq<(Seq<char>, String)>, id: usize, seg: Segment) -> bool {
    &&& id < s.len()
    &&& match seg {
        Segment::Text(t) => s[id as int] matches Phrase::Word(w) && w.name_view() == t && w.words()
            == phrase_words(t),
        Segment::Reference(n) => s[id as int].name_view() == n && if lookup(ftt, n) is Some {
            s[id as int] is Field
        } else {
            s[id as int] is Group
        },
    }
}

/// The phrases `ids` stand for the pieces `segs`, one by one.
pub open spec fn ids_ok(s: Seq<Phrase>, ftt: Seq<(Seq<char>, String)>, ids: Seq<usize>, segs: Seq<Segment>) -> bool {
    &&& ids.len() == segs.len()
    &&& forall|k: int| 0 <= k < ids.len() ==> #[trigger] segment_ok(s, ftt, ids[k], segs[k])
}

/// The phrase `id` stands for the line `line`: the phrase of its one piece, or an
/// unnamed sequence of the phrases of its pieces.
pub open spec fn line_ok(s: Seq<Phrase>, ftt: Seq<(Seq<char>, String)>, id: usize, line: Seq<char>) -> bool {
    let segs = segments(line);
    if segs.len() == 1 {
        segment_ok(s, ftt, id, segs[0])
    } else {
        &&& id < s.len()
        &&& s[id as int] matches Phrase::Meta(m)
        &&& m.name_view() == Seq::<char>::empty()
        &&& ids_ok(s, ftt, m.parts(), segs)
    }
}

/// The phrase `id` is a group named `name` with one alternative per line of `lines`.
#[verifier::opaque]
pub open spec fn group_ok(s: Seq<Phrase>, ftt: Seq<(Seq<char>, String)>, id: usize, name: Seq<char>, lines: Seq<
    Seq<char>,
>) -> bool {
    &&& id < s.len()
    &&& s[id as int] matches Phrase::Group(g)
    &&& g.name_view() == name
    &&& g.members().len() == lines.len()
    &&& forall|k: int| 0 <= k < lines.len() ==> #[trigger] line_ok(s, ftt, g.members()[k], lines[k])
}

/// `b` holds `a` and perhaps more after it.
pub open spec fn extends(a: Seq<Phrase>, b: Seq<Phrase>) -> bool {
    &&& a.len() <= b.len()
    &&& forall|i: int| 0 <= i < a.len() ==> #[trigger] b[i] == a[i]
}

proof fn lemma_segment_extend(a: Seq<Phrase>, b: Seq<Phrase>, ftt: Seq<(Seq<char>, String)>, id: usize, seg: Segment)
    requires
        extends(a, b),
        segment_ok(a, ftt, id, seg),
    ensures
        segment_ok(b, ftt, id, seg),
{
    assert(b[id as int] == a[id as int]);
}

proof fn lemma_ids_extend(a: Seq<Phrase>, b: Seq<Phrase>, ftt: Seq<(Seq<char>, String)>, ids: Seq<usize>, segs: Seq<Segment>)
    requires
        extends(a, b),
        ids_ok(a, ftt, ids, segs),
    ensures
        ids_ok(b, ftt, ids, segs),
{
    assert forall|k: int| 0 <= k < ids.len() implies #[trigger] segment_ok(b, ftt, ids[k], segs[k]) by {
        lemma_segment_extend(a, b, ftt, ids[k], segs[k]);
    }
}

proof fn lemma_line_extend(a: Seq<Phrase>, b: Seq<Phrase>, ftt: Seq<(Seq<char>, String)>, id: usize, line: Seq<char>)
    requires
        extends(a, b),
        line_ok(a, ftt, id, line),
    ensures
        line_ok(b, ftt, id, line),
{
    let segs = segments(line);
    if segs.len() == 1 {
        lemma_segment_extend(a, b, ftt, id, segs[0]);
    } else {
        assert(b[id as int] == a[id as int]);
        let m = a[id as int]->Meta_0;
        lemma_ids_extend(a, b, ftt, m.parts(), segs);
    }
}

proof fn lemma_group_extend(
    a: Seq<Phrase>,
    b: Seq<Phrase>,
    ftt: Seq<(Seq<char>, String)>,
    id: usize,
    name: Seq<char>,
    lines: Seq<Seq<char>>,
)
    requires
        extends(a, b),
        group_ok(a, ftt, id, name, lines),
    ensures
        group_ok(b, ftt, id, name, lines),
{
    reveal(group_ok);
    assert(b[id as int] == a[id as int]);
    let g = a[id as int]->Group_0;
    assert forall|k: int| 0 <= k < lines.len() implies #[trigger] line_ok(b, ftt, g.members()[k], lines[k]) by {
        lemma_line_extend(a, b, ftt, g.members()[k], lines[k]);
    }
}

/// One more line of a field type file compiled: every value comes from a line.
proof fn lemma_custom_values(
    prev_s: Seq<Phrase>,
    s: Seq<Phrase>,
    ftt: Seq<(Seq<char>, String)>,
    name: Seq<char>,
    ls: Seq<Seq<char>>,
    i: int,
    prev_c: Seq<(Seq<char>, usize)>,
    c: Seq<(Seq<char>, usize)>,
    id: usize,
)
    requires
        extends(prev_s, s),
        0 <= i < ls.len(),
        forall|j: int|
            0 <= j < c.len() ==> #[trigger] c[j] == (split_seq(ls[i], ':')[0], id) || prev_c.contains(c[j]),
        group_ok(s, ftt, id, name, split_seq(ls[i], ':')),
        values_from(prev_s, ftt, name, ls, i, prev_c),
        distinct_values(c),
        c.contains((split_seq(ls[i], ':')[0], id)),
    ensures
        values_from(s, ftt, name, ls, i + 1, c),
{
    reveal(lines_valued);
    assert forall|j: int| 0 <= j < c.len() implies #[trigger] value_line(s, ftt, name, ls, i + 1, c[j]) by {
        if c[j] != (split_seq(ls[i], ':')[0], id) {
            let j0 = choose|j0: int| 0 <= j0 < prev_c.len() && prev_c[j0] == c[j];
            assert(prev_c[j0] == c[j]);
            assert(value_line(prev_s, ftt, name, ls, i, prev_c[j0]));
            let k = choose|k: int|
                #![trigger split_seq(ls[k], ':')]
                0 <= k < i && split_seq(ls[k], ':')[0] == prev_c[j0].0 && (forall|k2: int|
                    k < k2 < i ==> split_seq(#[trigger] ls[k2], ':')[0] != prev_c[j0].0) && group_ok(
                    prev_s,
                    ftt,
                    prev_c[j0].1,
                    name,
                    split_seq(ls[k], ':'),
                );
            lemma_group_extend(prev_s, s, ftt, prev_c[j0].1, name, split_seq(ls[k], ':'));
            let j1 = choose|j1: int| 0 <= j1 < c.len() && c[j1] == (split_seq(ls[i], ':')[0], id);
            assert(j1 != j);
            assert(c[j].0 != split_seq(ls[i], ':')[0]);
            assert(forall|k2: int| k < k2 < i + 1 ==> split_seq(#[trigger] ls[k2], ':')[0] != c[j].0);
        } else {
            assert(split_seq(ls[i], ':')[0] == c[j].0);
        }
    }
}

/// One more line of a field type file compiled: every line's value is there.
proof fn lemma_custom_lines(
    ls: Seq<Seq<char>>,
    i: int,
    prev_c: Seq<(Seq<char>, usize)>,
    c: Seq<(Seq<char>, usize)>,
    id: usize,
)
    requires
        0 <= i < ls.len(),
        c.contains((split_seq(ls[i], ':')[0], id)),
        forall|k: int|
            0 <= k < prev_c.len() ==> exists|j: int| 0 <= j < c.len() && c[j].0 == #[trigger] prev_c[k].0,
        lines_valued(ls, i, prev_c),
    ensures
        lines_valued(ls, i + 1, c),
{
    reveal(lines_valued);
    assert forall|k: int|
        #![trigger split_seq(ls[k], ':')]
        0 <= k < i + 1 implies exists|j: int| #![trigger c[j]] 0 <= j < c.len() && c[j].0 == split_seq(ls[k], ':')[0] by {
        if k < i {
            let j0 = choose|j0: int| #![trigger prev_c[j0]] 0 <= j0 < prev_c.len() && prev_c[j0].0 == split_seq(ls[k], ':')[0];
            assert(prev_c[j0].0 == split_seq(ls[k], ':')[0]);
            let j1 = choose|j1: int| 0 <= j1 < c.len() && c[j1].0 == prev_c[j0].0;
            assert(c[j1].0 == split_seq(ls[k], ':')[0]);
        } else {
            let j1 = choose|j1: int| 0 <= j1 < c.len() && c[j1] == (split_seq(ls[i], ':')[0], id);
            assert(c[j1].0 == split_seq(ls[k], ':')[0]);
        }
    }
}

/// One more line of a field type file compiled.
proof fn lemma_custom_step(
    prev_s: Seq<Phrase>,
    s: Seq<Phrase>,
    ftt: Seq<(Seq<char>, String)>,
    name: Seq<char>,
    ls: Seq<Seq<char>>,
    i: int,
    prev_c: Seq<(Seq<char>, usize)>,
    c: Seq<(Seq<char>, usize)>,
    id: usize,
)
    requires
        extends(prev_s, s),
        0 <= i < ls.len(),
        forall|j: int|
            0 <= j < c.len() ==> #[trigger] c[j] == (split_seq(ls[i], ':')[0], id) || prev_c.contains(c[j]),
        c.contains((split_seq(ls[i], ':')[0], id)),
        forall|k: int|
            0 <= k < prev_c.len() ==> exists|j: int| 0 <= j < c.len() && c[j].0 == #[trigger] prev_c[k].0,
        group_ok(s, ftt, id, name, split_seq(ls[i], ':')),
        custom_upto(prev_s, ftt, name, ls, i, prev_c),
        forall|j: int| 0 <= j < prev_c.len() ==> (#[trigger] prev_c[j]).1 < prev_s.len(),
        id < s.len(),
        distinct_values(c),
    ensures
        custom_upto(s, ftt, name, ls, i + 1, c),
        forall|j: int| 0 <= j < c.len() ==> (#[trigger] c[j]).1 < s.len(),
{
    lemma_custom_values(prev_s, s, ftt, name, ls, i, prev_c, c, id);
    lemma_custom_lines(ls, i, prev_c, c, id);
    assert forall|j: int| 0 <= j < c.len() implies (#[trigger] c[j]).1 < s.len() by {
        if c[j] != (split_seq(ls[i], ':')[0], id) {
            let j0 = choose|j0: int| 0 <= j0 < prev_c.len() && prev_c[j0] == c[j];
            assert(prev_c[j0] == c[j]);
        }
    }
}

proof fn lemma_distinct_bounded(s: Seq<int>, n: int)
    requires
        s.no_duplicates(),
        forall|k: int| 0 <= k < s.len() ==> 0 <= #[trigger] s[k] < n,
        0 <= n,
    ensures
        s.len() <= n,
{
    s.unique_seq_to_set();
    vstd::set_lib::lemma_int_range(0, n);
    assert(s.to_set().subset_of(vstd::set_lib::set_int_range(0, n)));
    vstd::set_lib::lemma_len_subset(s.to_set(), vstd::set_lib::set_int_range(0, n));
}

/// Compiles the configuration and matches input against it.
pub struct Processor {
    base_node: BaseNode,
    compiling: Vec<String>,
    config_path: String,
    field_to_type: Table<String>,
    field_types: Table<FieldType>,
    fields: Table<usize>,
    phrases: Table<usize>,
    store: PhraseStore,
    open_sources: Ghost<Seq<int>>,
    prior: Ghost<Seq<(Seq<char>, usize)>>,
    prior_types: Ghost<Seq<(Seq<char>, FieldType)>>,
    prior_fields: Ghost<Seq<(Seq<char>, usize)>>,
}

/// The message for a phrase or field type that refers back to itself.
pub open spec fn already_compiling_message(name: Seq<char>) -> Seq<char> {
    "Cannot compile '"@ + name + "' because it is already compiling"@
}

/// The message for an empty file.
pub open spec fn could_not_read_message(path: Seq<char>) -> Seq<char> {
    "Could not read '"@ + path + "'"@
}

/// The message for a file that is not there.
pub open spec fn could_not_open_message(path: Seq<char>) -> Seq<char> {
    "Could not open '"@ + path + "'"@
}

/// The message for a line without any text or reference.
pub open spec fn no_phrases_message() -> Seq<char> {
    "Could not find any phrases in line"@
}

/// The message for a field that the field table does not know.
pub open spec fn no_field_type_message(name: Seq<char>) -> Seq<char> {
    "Could not find field type for given type '"@ + name + "'"@
}

/// The message for a badly formed line of `field_types.var`.
pub open spec fn invalid_field_message() -> Seq<char> {
    "Invalid definition of field in 'field_types.var' file"@
}

/// The path of a configuration file.
pub open spec fn file_path(config_path: Seq<char>, dir: Seq<char>, name: Seq<char>) -> Seq<char> {
    config_path + "/"@ + dir + "/"@ + name + ".td"@
}

impl Processor {
    pub closed spec fn phrase_store(&self) -> Seq<Phrase> {
        self.store@
    }

    /// The field-to-type table, name by name.
    pub closed spec fn field_table(&self) -> Seq<(Seq<char>, String)> {
        self.field_to_type@
    }

    pub closed spec fn phrase_table(&self) -> Seq<(Seq<char>, usize)> {
        self.phrases@
    }

    /// The field types compiled so far, name by name.
    pub closed spec fn type_cache(&self) -> Seq<(Seq<char>, FieldType)> {
        self.field_types@
    }

    /// The fields made so far, name by name.
    pub closed spec fn field_cache(&self) -> Seq<(Seq<char>, usize)> {
        self.fields@
    }

    pub closed spec fn tree(&self) -> Seq<crate::node::node::Node> {
        self.base_node.children()
    }

    pub closed spec fn config_path_view(&self) -> Seq<char> {
        self.config_path@
    }

    pub closed spec fn stack(&self) -> Seq<Seq<char>> {
        views(self.compiling@)
    }

    pub closed spec fn open_count(&self) -> int {
        self.open_sources@.len() as int
    }

    /// The phrases, fields, field types and tree refer only to stored phrases, and
    /// the cached phrases and fields are what their names say.
    pub closed spec fn wf(&self) -> bool {
        &&& self.store.wf()
        &&& self.base_node.wf(self.store@.len() as int)
        &&& forall|i: int|
            0 <= i < self.phrases@.len() ==> {
                let (n, id) = #[trigger] self.phrases@[i];
                &&& id < self.store@.len()
                &&& self.store@[id as int] is Group
                &&& self.store@[id as int].name_view() == n
            }
        &&& forall|i: int|
            0 <= i < self.fields@.len() ==> {
                let (n, id) = #[trigger] self.fields@[i];
                &&& id < self.store@.len()
                &&& self.store@[id as int] is Field
                &&& self.store@[id as int].name_view() == n
            }
        &&& forall|i: int|
            0 <= i < self.field_types@.len() ==> {
                let (n, t) = #[trigger] self.field_types@[i];
                &&& t is Custom
                &&& !builtin_type_name(n)
                &&& t.wf()
                &&& all_below(t.phrase_ids(), self.store@.len() as int)
            }
    }

    /// The names on top of the compiling list are those of distinct files of
    /// `files` (what lies below them was left by an earlier compilation).
    pub closed spec fn compiling_ok(&self, files: &ConfigFiles) -> bool {
        let base = self.compiling@.len() - self.open_sources@.len();
        &&& self.open_sources@.len() <= self.compiling@.len()
        &&& self.open_sources@.no_duplicates()
        &&& forall|k: int|
            #![trigger self.open_sources@[k]]
            0 <= k < self.open_sources@.len() ==> 0 <= self.open_sources@[k] < files.total()
                && self.compiling@[base + k]@ == files.key(self.open_sources@[k])
        &&& self.open_sources@.len() <= files.total()
    }

    /// Every phrase compiled from `files` (not already cached when they were handed
    /// over) is a group with one alternative per line of its file.
    pub closed spec fn cache_ok(&self, files: &ConfigFiles) -> bool {
        forall|n: Seq<char>|
            #[trigger] lookup(self.phrases@, n) is Some && lookup(self.prior@, n) is None ==> {
                &&& file_index(files.phrases@, n) >= 0
                &&& group_ok(
                    self.store@,
                    self.field_to_type@,
                    lookup(self.phrases@, n).unwrap(),
                    n,
                    files.phrase_lines(n),
                )
            }
    }

    /// Every field type compiled from `files` (not already cached when they were
    /// handed over) holds the values and synonyms of its file.
    pub closed spec fn types_ok(&self, files: &ConfigFiles) -> bool {
        forall|n: Seq<char>|
            #[trigger] lookup(self.field_types@, n) is Some && lookup(self.prior_types@, n) is None ==> {
                &&& file_index(files.field_types@, n) >= 0
                &&& custom_ok(
                    self.store@,
                    self.field_to_type@,
                    lookup(self.field_types@, n).unwrap(),
                    n,
                    files.field_type_lines(n),
                )
            }
    }

    /// Every field made since `files` were handed over has the kind its type name
    /// gives (see `field_made_ok`).
    pub closed spec fn fields_ok(&self, files: &ConfigFiles) -> bool {
        forall|n: Seq<char>|
            #[trigger] lookup(self.fields@, n) is Some && lookup(self.prior_fields@, n) is None ==> field_made_ok(
                self.store@,
                self.field_to_type@,
                self.prior_types@,
                files,
                lookup(self.fields@, n).unwrap(),
                n,
            )
    }

    /// A processor for the configuration named `config`, with nothing compiled.
    pub fn new(config: &str) -> (res: Processor)
        ensures
            res.wf(),
            forall|f: &ConfigFiles| res.compiling_ok(f) && res.cache_ok(f) && res.types_ok(f) && res.fields_ok(f),
            res.phrase_store().len() == 0,
            res.tree().len() == 0,
            res.field_table().len() == 0,
            res.phrase_table().len() == 0,
            res.type_cache().len() == 0,
            res.field_cache().len() == 0,
            res.stack().len() == 0,
            res.config_path_view() == "./config/"@ + config@,
    {
        let mut config_path = String::from_str("./config/");
        config_path.append(config);
        let res = Processor {
            base_node: BaseNode::new(),
            compiling: Vec::new(),
            config_path,
            field_to_type: Table::new(),
            field_types: Table::new(),
            fields: Table::new(),
            phrases: Table::new(),
            store: PhraseStore::new(),
            open_sources: Ghost(Seq::empty()),
            prior: Ghost(Seq::empty()),
            prior_types: Ghost(Seq::empty()),
            prior_fields: Ghost(Seq::empty()),
        };
        proof {
            assert(res.open_sources@.no_duplicates());
        }
        res
    }
}

/// The phrase `id` is the field `n` made with the kind its type name in `ftt` gives:
/// the built-in last name, or, for a type not compiled before (not in `prior`), the
/// custom field type of the type's file in `files`.
pub open spec fn field_made_ok(
    s: Seq<Phrase>,
    ftt: Seq<(Seq<char>, String)>,
    prior: Seq<(Seq<char>, FieldType)>,
    files: &ConfigFiles,
    id: usize,
    n: Seq<char>,
) -> bool {
    &&& id < s.len()
    &&& s[id as int] matches Phrase::Field(f)
    &&& field_type_name(ftt, n) matches Some(tn)
    &&& builtin_kind(f.kind(), tn)
    &&& (!builtin_type_name(tn) && lookup(prior, tn) is None ==> file_index(files.field_types@, tn) >= 0
        && custom_ok(s, ftt, f.kind(), tn, files.field_type_lines(tn)))
}

/// What every compiling step keeps: `b` is well formed, compiles distinct files of
/// `files` and holds only what was compiled from them; its phrases extend those of
/// `a`, what `a` had cached stays cached, and the field table, node tree and
/// configuration path are those of `a`.
pub closed spec fn frame(a: Processor, b: Processor, files: &ConfigFiles) -> bool {
    &&& b.wf()
    &&& b.compiling_ok(files)
    &&& extends(a.store@, b.store@)
    &&& b.field_to_type@ == a.field_to_type@
    &&& b.base_node.children() == a.base_node.children()
    &&& b.config_path == a.config_path
    &&& b.cache_ok(files)
    &&& b.types_ok(files)
    &&& b.fields_ok(files)
    &&& b.prior == a.prior
    &&& b.prior_types == a.prior_types
    &&& b.prior_fields == a.prior_fields
    &&& forall|n: Seq<char>| #[trigger] lookup(a.phrases@, n) is Some ==> lookup(b.phrases@, n) == lookup(a.phrases@, n)
    &&& forall|n: Seq<char>| #[trigger] lookup(a.fields@, n) is Some ==> lookup(b.fields@, n) == lookup(a.fields@, n)
}

/// A reference of a line resolved to `id` is the phrase or field cached under its
/// name.
pub open spec fn ref_cached(p: Processor, id: usize, seg: Segment) -> bool {
    match seg {
        Segment::Text(_) => true,
        Segment::Reference(n) => {
            &&& p.phrase_store()[id as int] is Group ==> lookup(p.phrase_table(), n) == Some(id)
            &&& p.phrase_store()[id as int] is Field ==> lookup(p.field_cache(), n) == Some(id)
        },
    }
}

/// The references of the line `line`, in the phrase `id` that stands for it (see
/// `line_ok`), are the phrases and fields cached under their names.
pub open spec fn line_cached(p: Processor, id: usize, line: Seq<char>) -> bool {
    let segs = segments(line);
    if segs.len() == 1 {
        ref_cached(p, id, segs[0])
    } else {
        p.phrase_store()[id as int] matches Phrase::Meta(m) && forall|j: int|
            0 <= j < m.parts().len() && j < segs.len() ==> #[trigger] ref_cached(p, m.parts()[j], segs[j])
    }
}

/// The alternatives of the group `id`, one per line of `lines`, refer to the phrases
/// and fields cached under the names their lines give.
pub open spec fn group_cached(p: Processor, id: usize, lines: Seq<Seq<char>>) -> bool {
    &&& p.phrase_store()[id as int] matches Phrase::Group(g)
    &&& g.members().len() == lines.len()
    &&& forall|k: int| 0 <= k < lines.len() ==> #[trigger] line_cached(p, g.members()[k], lines[k])
}

/// The error that compiling the phrase `name` meets before reading its lines, if
/// any: the phrase is being compiled already, its file is missing, or empty.
pub closed spec fn phrase_error(p: Processor, files: &ConfigFiles, name: Seq<char>) -> Option<Seq<char>> {
    let i = file_index(files.phrases@, name);
    if views(p.compiling@).contains("phrase:"@ + name) {
        Some(already_compiling_message(name))
    } else if i < 0 {
        Some(could_not_open_message(file_path(p.config_path@, "phrases"@, name)))
    } else if files.phrases@[i].contents@.len() == 0 {
        Some(could_not_read_message(file_path(p.config_path@, "phrases"@, name)))
    } else {
        None
    }
}

/// The same for the field type `name`.
pub closed spec fn field_type_error(p: Processor, files: &ConfigFiles, name: Seq<char>) -> Option<Seq<char>> {
    let i = file_index(files.field_types@, name);
    if views(p.compiling@).contains("field_type:"@ + name) {
        Some(already_compiling_message(name))
    } else if i < 0 {
        Some(could_not_open_message(file_path(p.config_path@, "field_types"@, name)))
    } else if files.field_types@[i].contents@.len() == 0 {
        Some(could_not_read_message(file_path(p.config_path@, "field_types"@, name)))
    } else {
        None
    }
}

/// The error that looking up the reference `seg` meets at once in `p`, if any: a
/// phrase that is not cached and whose file is missing, empty or being compiled (see
/// `phrase_error`), or a field not made yet whose type is neither cached nor built in
/// and whose file is so (see `field_type_error`).
pub open spec fn ref_error(p: Processor, files: &ConfigFiles, seg: Segment) -> Option<Seq<char>> {
    match seg {
        Segment::Text(_) => None,
        Segment::Reference(n) => match lookup(p.field_table(), n) {
            None => if lookup(p.phrase_table(), n) is None {
                phrase_error(p, files, n)
            } else {
                None
            },
            Some(tn) => if lookup(p.field_cache(), n) is None && lookup(p.type_cache(), tn@) is None
                && !builtin_type_name(tn@) {
                field_type_error(p, files, tn@)
            } else {
                None
            },
        },
    }
}

/// The first reference among the pieces of `line` is piece `r`: every piece before
/// it is text.
pub open spec fn first_reference(line: Seq<char>, r: int) -> bool {
    &&& 0 <= r < segments(line).len()
    &&& segments(line)[r] is Reference
    &&& forall|k: int| 0 <= k < r ==> (#[trigger] segments(line)[k]) is Text
}

/// The reference `seg` names a phrase (not a field) that `p` has not cached and is
/// compiling already, so that looking it up fails at once.
pub open spec fn reentering(p: Processor, seg: Segment) -> bool {
    seg matches Segment::Reference(n) && lookup(p.field_table(), n) is None && lookup(p.phrase_table(), n) is None
        && p.stack().contains("phrase:"@ + n)
}

/// Two field types of the same kind with the same values and phrases.
pub open spec fn same_type(a: FieldType, b: FieldType) -> bool {
    ||| a is LastName && b is LastName
    ||| a is FirstName && b is FirstName
    ||| (a matches FieldType::Custom(c) && b matches FieldType::Custom(d) && c@ == d@)
}

/// The values `c` and their phrases come from the first `i` lines of `lines`: each
/// value is the first `:`-separated piece of one of those lines and is recognised
/// by a group named `name` with one alternative per piece of that line, and the
/// value of each of those lines is there.
pub open spec fn custom_upto(
    s: Seq<Phrase>,
    ftt: Seq<(Seq<char>, String)>,
    name: Seq<char>,
    lines: Seq<Seq<char>>,
    i: int,
    c: Seq<(Seq<char>, usize)>,
) -> bool {
    values_from(s, ftt, name, lines, i, c) && lines_valued(lines, i, c)
}

/// Each value of `c` is the first piece of one of the first `i` lines, and its
/// phrase is a group named `name` with one alternative per piece of that line.
pub open spec fn values_from(
    s: Seq<Phrase>,
    ftt: Seq<(Seq<char>, String)>,
    name: Seq<char>,
    lines: Seq<Seq<char>>,
    i: int,
    c: Seq<(Seq<char>, usize)>,
) -> bool {
    forall|j: int| 0 <= j < c.len() ==> #[trigger] value_line(s, ftt, name, lines, i, c[j])
}

/// The value `v` is the first piece of one of the first `i` lines, the last of them
/// with that first piece, and its phrase is a group named `name` with one
/// alternative per piece of that line.
pub open spec fn value_line(
    s: Seq<Phrase>,
    ftt: Seq<(Seq<char>, String)>,
    name: Seq<char>,
    lines: Seq<Seq<char>>,
    i: int,
    v: (Seq<char>, usize),
) -> bool {
    exists|k: int|
        #![trigger split_seq(lines[k], ':')]
        0 <= k < i && split_seq(lines[k], ':')[0] == v.0 && (forall|k2: int|
            k < k2 < i ==> split_seq(#[trigger] lines[k2], ':')[0] != v.0) && group_ok(
            s,
            ftt,
            v.1,
            name,
            split_seq(lines[k], ':'),
        )
}

/// The value of each of the first `i` lines is in `c`.
#[verifier::opaque]
pub open spec fn lines_valued(lines: Seq<Seq<char>>, i: int, c: Seq<(Seq<char>, usize)>) -> bool {
    forall|k: int|
        #![trigger split_seq(lines[k], ':')]
        0 <= k < i ==> exists|j: int| #![trigger c[j]] 0 <= j < c.len() && c[j].0 == split_seq(lines[k], ':')[0]
}

/// The custom field type `t` was compiled from the lines `lines` of the file of the
/// field type `name` (see `custom_upto`).
pub open spec fn custom_ok(s: Seq<Phrase>, ftt: Seq<(Seq<char>, String)>, t: FieldType, name: Seq<char>, lines: Seq<
    Seq<char>,
>) -> bool {
    t matches FieldType::Custom(c) && custom_upto(s, ftt, name, lines, lines.len() as int, c@)
}

/// The lines of a configuration file.
pub open spec fn file_lines(f: ConfigFile) -> Seq<Seq<char>> {
    split_seq(f.contents@, '\n')
}

/// A task file is compiled only when its first line is not empty.
pub open spec fn task_used(f: ConfigFile) -> bool {
    file_lines(f)[0].len() > 0
}

/// `line` was compiled into phrases of `p` and added to its tree as a path to `task`.
pub open spec fn line_added(p: Processor, line: Seq<char>, task: Seq<char>) -> bool {
    exists|ids: Seq<usize>|
        #![trigger task_at(p.tree(), ids)]
        ids_ok(p.phrase_store(), p.field_table(), ids, segments(line)) && (forall|k: int|
            0 <= k < ids.len() ==> #[trigger] ref_cached(p, ids[k], segments(line)[k])) && task_at(p.tree(), ids) == Some(
            task,
        )
}

/// Every line of the first `j` task files that are compiled, with a non-empty
/// name, leads to its task.
pub open spec fn tasks_added(p: Processor, files: &ConfigFiles, j: int) -> bool {
    forall|t: int, k: int|
        0 <= t < j && task_used(files.tasks@[t]) && files.tasks@[t].name@.len() > 0 && 0 <= k < file_lines(
            files.tasks@[t],
        ).len() ==> #[trigger] line_added(p, file_lines(files.tasks@[t])[k], files.tasks@[t].name@)
}

/// The type name given to the field `n` by the first `i` lines of `field_types.var`
/// (the last of them that names `n`), or else by `t`.
pub open spec fn field_entry(t: Seq<(Seq<char>, String)>, lines: Seq<Seq<char>>, i: int, n: Seq<char>) -> Option<
    Seq<char>,
>
    decreases i,
{
    if i <= 0 {
        match lookup(t, n) {
            Some(v) => Some(v@),
            None => None,
        }
    } else if split_seq(lines[i - 1], ':')[0] == n {
        Some(split_seq(lines[i - 1], ':')[1])
    } else {
        field_entry(t, lines, i - 1, n)
    }
}

/// The type name the table `t` gives the field `n`.
pub open spec fn field_type_name(t: Seq<(Seq<char>, String)>, n: Seq<char>) -> Option<Seq<char>> {
    match lookup(t, n) {
        Some(v) => Some(v@),
        None => None,
    }
}

/// The type names that the field table `ftt` gives, as a function of the field name.
pub open spec fn types_of(ftt: Seq<(Seq<char>, String)>) -> spec_fn(Seq<char>) -> Option<Seq<char>> {
    |n: Seq<char>| field_type_name(ftt, n)
}

/// Compiling each of `lines` meets no error (see `line_compiles`).
pub open spec fn lines_compile(
    files: &ConfigFiles,
    types: spec_fn(Seq<char>) -> Option<Seq<char>>,
    stack: Seq<Seq<char>>,
    lines: Seq<Seq<char>>,
    depth: nat,
) -> bool
    decreases depth, 3int,
{
    forall|k: int| 0 <= k < lines.len() ==> line_compiles(files, types, stack, #[trigger] lines[k], depth)
}

/// Compiling `line` meets no error while the names `stack` are being compiled,
/// following references at most `depth` deep: the line has a piece, and each of its
/// references compiles (see `seg_compiles`).
pub open spec fn line_compiles(
    files: &ConfigFiles,
    types: spec_fn(Seq<char>) -> Option<Seq<char>>,
    stack: Seq<Seq<char>>,
    line: Seq<char>,
    depth: nat,
) -> bool
    decreases depth, 2int,
{
    &&& segments(line).len() > 0
    &&& forall|k: int|
        0 <= k < segments(line).len() ==> seg_compiles(files, types, stack, #[trigger] segments(line)[k], depth)
}

/// Compiling the piece `seg` meets no error: text always compiles; a reference to a
/// field (one that `types` gives a type name) compiles when its field type does, a
/// reference to anything else when the phrase of that name does.
pub open spec fn seg_compiles(
    files: &ConfigFiles,
    types: spec_fn(Seq<char>) -> Option<Seq<char>>,
    stack: Seq<Seq<char>>,
    seg: Segment,
    depth: nat,
) -> bool
    decreases depth, 1int,
{
    match seg {
        Segment::Text(_) => true,
        Segment::Reference(n) => match types(n) {
            Some(tn) => type_compiles(files, types, stack, tn, depth),
            None => phrase_compiles(files, types, stack, n, depth),
        },
    }
}

/// Compiling the phrase `name` meets no error: it is not being compiled already, its
/// file is there and not empty, and each line of the file compiles one level deeper.
pub open spec fn phrase_compiles(
    files: &ConfigFiles,
    types: spec_fn(Seq<char>) -> Option<Seq<char>>,
    stack: Seq<Seq<char>>,
    name: Seq<char>,
    depth: nat,
) -> bool
    decreases depth, 0int,
{
    if depth == 0 {
        false
    } else {
        let key = "phrase:"@ + name;
        let i = file_index(files.phrases@, name);
        &&& !stack.contains(key)
        &&& i >= 0
        &&& files.phrases@[i].contents@.len() > 0
        &&& lines_compile(files, types, stack.push(key), split_seq(files.phrases@[i].contents@, '\n'), (depth - 1) as nat)
    }
}

/// Compiling the field type `name` meets no error: it is the built-in last name, or
/// it is not being compiled already, its file is there and not empty, and the
/// `:`-separated pieces of each line of the file compile one level deeper.
pub open spec fn type_compiles(
    files: &ConfigFiles,
    types: spec_fn(Seq<char>) -> Option<Seq<char>>,
    stack: Seq<Seq<char>>,
    name: Seq<char>,
    depth: nat,
) -> bool
    decreases depth, 0int,
{
    if builtin_type_name(name) {
        true
    } else if depth == 0 {
        false
    } else {
        let key = "field_type:"@ + name;
        let i = file_index(files.field_types@, name);
        let lines = split_seq(files.field_types@[i].contents@, '\n');
        &&& !stack.contains(key)
        &&& i >= 0
        &&& files.field_types@[i].contents@.len() > 0
        &&& forall|k: int|
            0 <= k < lines.len() ==> lines_compile(
                files,
                types,
                stack.push(key),
                split_seq(#[trigger] lines[k], ':'),
                (depth - 1) as nat,
            )
    }
}

/// Every line of every task file that is compiled compiles (see `line_compiles`).
pub open spec fn tasks_compile(
    files: &ConfigFiles,
    types: spec_fn(Seq<char>) -> Option<Seq<char>>,
    stack: Seq<Seq<char>>,
    depth: nat,
) -> bool {
    forall|t: int, k: int|
        0 <= t < files.tasks@.len() && task_used(files.tasks@[t]) && 0 <= k < file_lines(files.tasks@[t]).len()
            ==> line_compiles(files, types, stack, #[trigger] file_lines(files.tasks@[t])[k], depth)
}

/// Every phrase file and every task line compiles (see `phrase_compiles` and
/// `tasks_compile`).
pub open spec fn config_compiles(
    files: &ConfigFiles,
    types: spec_fn(Seq<char>) -> Option<Seq<char>>,
    stack: Seq<Seq<char>>,
    depth: nat,
) -> bool {
    &&& forall|i: int|
        0 <= i < files.phrases@.len() ==> phrase_compiles(files, types, stack, (#[trigger] files.phrases@[i]).name@, depth)
    &&& tasks_compile(files, types, stack, depth)
}

/// Every line of `field_types.var` (the text `var`) is of the form `field:type`.
pub open spec fn fields_parse(var: Seq<char>) -> bool {
    forall|k: int|
        0 <= k < split_seq(var, '\n').len() ==> #[trigger] split_seq(split_seq(var, '\n')[k], ':').len() == 2
}

/// The type names that `field_types.var` (the text `var`) gives, over those of the
/// table `t`.
pub open spec fn parsed_types(t: Seq<(Seq<char>, String)>, var: Seq<char>) -> spec_fn(Seq<char>) -> Option<Seq<char>> {
    |n: Seq<char>| field_entry(t, split_seq(var, '\n'), split_seq(var, '\n').len() as int, n)
}

/// The line `line` compiles at no depth.
pub open spec fn line_fails(
    files: &ConfigFiles,
    types: spec_fn(Seq<char>) -> Option<Seq<char>>,
    stack: Seq<Seq<char>>,
    line: Seq<char>,
) -> bool {
    forall|f: nat| !#[trigger] line_compiles(files, types, stack, line, f)
}

/// The phrase `name` compiles at no depth.
pub open spec fn phrase_fails(
    files: &ConfigFiles,
    types: spec_fn(Seq<char>) -> Option<Seq<char>>,
    stack: Seq<Seq<char>>,
    name: Seq<char>,
) -> bool {
    forall|f: nat| !#[trigger] phrase_compiles(files, types, stack, name, f)
}

/// The phrases of `line` in `p` lead to a task other than `task` that is not empty,
/// and `m` is the message that says so.
pub open spec fn line_conflicts(p: Processor, line: Seq<char>, task: Seq<char>, m: Seq<char>) -> bool {
    exists|ids: Seq<usize>|
        #![trigger task_at(p.tree(), ids)]
        ids_ok(p.phrase_store(), p.field_table(), ids, segments(line)) && conflicting(task_at(p.tree(), ids), task)
            && m == same_input_message(task_at(p.tree(), ids).unwrap(), task)
}

/// The lines of the task files `tasks` that are compiled (those of each file whose
/// first line is not empty), in file order and line order, each with its task's name.
pub open spec fn task_lines(tasks: Seq<ConfigFile>) -> Seq<(Seq<char>, Seq<char>)>
    decreases tasks.len(),
{
    if tasks.len() == 0 {
        Seq::empty()
    } else {
        task_lines(tasks.drop_last()) + file_task_lines(tasks.last())
    }
}

/// The lines `ls`, each with the task name `name`.
pub open spec fn named_lines(ls: Seq<Seq<char>>, name: Seq<char>) -> Seq<(Seq<char>, Seq<char>)> {
    ls.map_values(|l: Seq<char>| (l, name))
}

/// The lines of the task file `f` with its name, or none where its first line is
/// empty.
pub open spec fn file_task_lines(f: ConfigFile) -> Seq<(Seq<char>, Seq<char>)> {
    if task_used(f) {
        named_lines(file_lines(f), f.name@)
    } else {
        Seq::empty()
    }
}

/// The trees `a` are the trees `b`, one by one (see `same_tree`).
pub open spec fn same_forest(a: Seq<Node>, b: Seq<Node>) -> bool {
    &&& a.len() == b.len()
    &&& forall|j: int| 0 <= j < a.len() ==> same_tree(#[trigger] a[j], b[j])
}

/// Step `i` of adding the task lines `lines`: line `i` stands for the phrases
/// `adds[i]` of `p` (one per piece, each reference the phrase or field cached under
/// its name), and adding them as a path to the line's task turned `trees[i]` into
/// `trees[i + 1]`.
pub open spec fn build_step(
    p: Processor,
    lines: Seq<(Seq<char>, Seq<char>)>,
    adds: Seq<Seq<usize>>,
    trees: Seq<Seq<Node>>,
    i: int,
) -> bool {
    let segs = segments(lines[i].0);
    &&& ids_ok(p.phrase_store(), p.field_table(), adds[i], segs)
    &&& forall|k: int| 0 <= k < adds[i].len() ==> #[trigger] ref_cached(p, adds[i][k], segs[k])
    &&& children_added(trees[i], trees[i + 1], adds[i], lines[i].1)
}

/// The trees `trees` lead from `before` to (the same trees as) `after` by adding the
/// lines `lines` one after the other, as the phrases `adds` of `p`.
pub open spec fn build_steps(
    p: Processor,
    before: Seq<Node>,
    after: Seq<Node>,
    lines: Seq<(Seq<char>, Seq<char>)>,
    adds: Seq<Seq<usize>>,
    trees: Seq<Seq<Node>>,
) -> bool {
    &&& adds.len() == lines.len()
    &&& trees.len() == lines.len() + 1
    &&& trees[0] == before
    &&& same_forest(after, trees[lines.len() as int])
    &&& forall|i: int| 0 <= i < lines.len() ==> #[trigger] build_step(p, lines, adds, trees, i)
}

/// `after` is the tree `before` with the task lines `lines` added, one after the
/// other, each as the path of its phrases in `p` to its task, and nothing else.
pub open spec fn lines_built(p: Processor, before: Seq<Node>, after: Seq<Node>, lines: Seq<(Seq<char>, Seq<char>)>) -> bool {
    exists|adds: Seq<Seq<usize>>, trees: Seq<Seq<Node>>| #[trigger] build_steps(p, before, after, lines, adds, trees)
}

/// Adding the task lines `lines` to the tree `before` stopped at a line with the
/// message `m`: the lines before it were added to give the tree of `p`, and that line
/// does not compile (where it has no pieces, `m` says so) or its phrases lead in `p`
/// to another task, as `m` says.
pub open spec fn tasks_stopped(
    p: Processor,
    files: &ConfigFiles,
    types: spec_fn(Seq<char>) -> Option<Seq<char>>,
    stack: Seq<Seq<char>>,
    before: Seq<Node>,
    lines: Seq<(Seq<char>, Seq<char>)>,
    m: Seq<char>,
) -> bool {
    exists|i: int|
        #![trigger lines[i]]
        0 <= i < lines.len() && lines_built(p, before, p.tree(), lines.take(i)) && ((line_fails(
            files,
            types,
            stack,
            lines[i].0,
        ) && (segments(lines[i].0).len() == 0 ==> m == no_phrases_message())) || line_conflicts(
            p,
            lines[i].0,
            lines[i].1,
            m,
        ))
}

/// The lines of the first files of a list come first among the lines of the list.
proof fn lemma_task_lines_prefix(s: Seq<ConfigFile>, j: int)
    requires
        0 <= j <= s.len(),
    ensures
        task_lines(s.take(j)).len() <= task_lines(s).len(),
        task_lines(s).take(task_lines(s.take(j)).len() as int) == task_lines(s.take(j)),
    decreases s.len(),
{
    if j == s.len() {
        assert(s.take(j) =~= s);
    } else {
        lemma_task_lines_prefix(s.drop_last(), j);
        assert(s.drop_last().take(j) =~= s.take(j));
        let a = task_lines(s.drop_last());
        let b = file_task_lines(s.last());
        let n = task_lines(s.take(j)).len() as int;
        assert((a + b).take(n) =~= a.take(n));
    }
}

/// One more file: its lines come after those of the files before it.
proof fn lemma_task_lines_step(s: Seq<ConfigFile>, j: int)
    requires
        0 <= j < s.len(),
    ensures
        task_lines(s.take(j + 1)) == task_lines(s.take(j)) + file_task_lines(s[j]),
{
    assert(s.take(j + 1).drop_last() =~= s.take(j));
    assert(s.take(j + 1).last() == s[j]);
}

/// Line `k` of the task file `j`, compiled after the lines before it, is where the
/// lines compiled so far end.
proof fn lemma_line_index(tasks: Seq<ConfigFile>, j: int, k: int, done: Seq<(Seq<char>, Seq<char>)>)
    requires
        0 <= j < tasks.len(),
        task_used(tasks[j]),
        0 <= k < file_lines(tasks[j]).len(),
        done == task_lines(tasks.take(j)) + named_lines(file_lines(tasks[j]).take(k), tasks[j].name@),
    ensures
        done.len() < task_lines(tasks).len(),
        task_lines(tasks).take(done.len() as int) == done,
        task_lines(tasks)[done.len() as int] == (file_lines(tasks[j])[k], tasks[j].name@),
{
    lemma_task_lines_prefix(tasks, j + 1);
    lemma_task_lines_step(tasks, j);
    let full = task_lines(tasks);
    let p = task_lines(tasks.take(j + 1));
    let n = done.len() as int;
    assert(p.take(n) =~= done);
    assert(p[n] == (file_lines(tasks[j])[k], tasks[j].name@));
    assert(full.take(n) =~= p.take(n));
    assert(full[n] == full.take(p.len() as int)[n]);
}

/// The steps of a build stay steps when more phrases are compiled.
proof fn lemma_build_frame(
    a: Processor,
    b: Processor,
    files: &ConfigFiles,
    lines: Seq<(Seq<char>, Seq<char>)>,
    adds: Seq<Seq<usize>>,
    trees: Seq<Seq<Node>>,
    n: int,
)
    requires
        frame(a, b, files),
        0 <= n <= lines.len(),
        n <= adds.len(),
        forall|i: int| 0 <= i < n ==> #[trigger] build_step(a, lines, adds, trees, i),
    ensures
        forall|i: int| 0 <= i < n ==> #[trigger] build_step(b, lines, adds, trees, i),
{
    assert forall|i: int| 0 <= i < n implies #[trigger] build_step(b, lines, adds, trees, i) by {
        assert(build_step(a, lines, adds, trees, i));
        let segs = segments(lines[i].0);
        lemma_ids_extend(a.store@, b.store@, a.field_to_type@, adds[i], segs);
        assert forall|k: int| 0 <= k < adds[i].len() implies #[trigger] ref_cached(b, adds[i][k], segs[k]) by {
            assert(segment_ok(a.store@, a.field_to_type@, adds[i][k], segs[k]));
            assert(ref_cached(a, adds[i][k], segs[k]));
            lemma_ref_cached_extend(a, b, files, adds[i][k], segs[k]);
        }
    }
}

/// The steps of a build do not depend on the tree of the processor.
proof fn lemma_build_same(
    a: Processor,
    b: Processor,
    lines: Seq<(Seq<char>, Seq<char>)>,
    adds: Seq<Seq<usize>>,
    trees: Seq<Seq<Node>>,
    n: int,
)
    requires
        b.store == a.store,
        b.field_to_type == a.field_to_type,
        b.phrases == a.phrases,
        b.fields == a.fields,
        forall|i: int| 0 <= i < n ==> #[trigger] build_step(a, lines, adds, trees, i),
    ensures
        forall|i: int| 0 <= i < n ==> #[trigger] build_step(b, lines, adds, trees, i),
{
    assert forall|i: int| 0 <= i < n implies #[trigger] build_step(b, lines, adds, trees, i) by {
        assert(build_step(a, lines, adds, trees, i));
        let segs = segments(lines[i].0);
        assert forall|k: int| 0 <= k < adds[i].len() implies #[trigger] ref_cached(b, adds[i][k], segs[k]) by {
            assert(ref_cached(a, adds[i][k], segs[k]));
        }
    }
}

/// A build extended by one step.
proof fn lemma_build_push(
    p: Processor,
    lines: Seq<(Seq<char>, Seq<char>)>,
    adds: Seq<Seq<usize>>,
    trees: Seq<Seq<Node>>,
    l: (Seq<char>, Seq<char>),
    ids: Seq<usize>,
    t: Seq<Node>,
)
    requires
        adds.len() == lines.len(),
        trees.len() == lines.len() + 1,
        forall|i: int| 0 <= i < lines.len() ==> #[trigger] build_step(p, lines, adds, trees, i),
        ids_ok(p.phrase_store(), p.field_table(), ids, segments(l.0)),
        forall|k: int| 0 <= k < ids.len() ==> #[trigger] ref_cached(p, ids[k], segments(l.0)[k]),
        children_added(trees[lines.len() as int], t, ids, l.1),
    ensures
        forall|i: int|
            0 <= i < lines.len() + 1 ==> #[trigger] build_step(p, lines.push(l), adds.push(ids), trees.push(t), i),
{
    let n = lines.len() as int;
    assert forall|i: int| 0 <= i < lines.len() + 1 implies #[trigger] build_step(
        p,
        lines.push(l),
        adds.push(ids),
        trees.push(t),
        i,
    ) by {
        assert(lines.push(l)[i] == if i < n { lines[i] } else { l });
        assert(adds.push(ids)[i] == if i < n { adds[i] } else { ids });
        assert(trees.push(t)[i] == trees[i]);
        assert(trees.push(t)[i + 1] == if i < n { trees[i + 1] } else { t });
        if i < n {
            assert(build_step(p, lines, adds, trees, i));
        }
    }
}

/// Every tree is the same as itself.
proof fn lemma_same_forest_refl(a: Seq<Node>)
    ensures
        same_forest(a, a),
{
    assert forall|j: int| 0 <= j < a.len() implies same_tree(#[trigger] a[j], a[j]) by {
        lemma_same_tree_refl(a[j]);
    }
}

/// `b` is compiling the same files as `a`.
pub closed spec fn same_stack(a: Processor, b: Processor) -> bool {
    &&& b.compiling@ == a.compiling@
    &&& b.open_sources@ == a.open_sources@
}

/// Adding phrases keeps what the cached phrases were compiled from.
proof fn lemma_cache_grow(a: Processor, b: Processor, files: &ConfigFiles)
    requires
        a.cache_ok(files),
        extends(a.store@, b.store@),
        b.field_to_type@ == a.field_to_type@,
        b.phrases@ == a.phrases@,
        b.prior@ == a.prior@,
    ensures
        b.cache_ok(files),
{
    assert forall|n: Seq<char>| #[trigger] lookup(b.phrases@, n) is Some && lookup(b.prior@, n) is None implies {
        &&& file_index(files.phrases@, n) >= 0
        &&& group_ok(b.store@, b.field_to_type@, lookup(b.phrases@, n).unwrap(), n, files.phrase_lines(n))
    } by {
        assert(lookup(a.phrases@, n) is Some);
        lemma_group_extend(a.store@, b.store@, a.field_to_type@, lookup(a.phrases@, n).unwrap(), n, files.phrase_lines(n));
    }
}

/// A custom field type compiled against some phrases is still so when more are
/// added.
proof fn lemma_custom_extend(
    a: Seq<Phrase>,
    b: Seq<Phrase>,
    ftt: Seq<(Seq<char>, String)>,
    t: FieldType,
    name: Seq<char>,
    lines: Seq<Seq<char>>,
)
    requires
        extends(a, b),
        custom_ok(a, ftt, t, name, lines),
    ensures
        custom_ok(b, ftt, t, name, lines),
{
    let c = t->Custom_0;
    assert(values_from(a, ftt, name, lines, lines.len() as int, c@));
    lemma_values_extend(a, b, ftt, name, lines, lines.len() as int, c@);
}

/// Values compiled against some phrases still come from their lines when more
/// phrases are added.
proof fn lemma_values_extend(
    a: Seq<Phrase>,
    b: Seq<Phrase>,
    ftt: Seq<(Seq<char>, String)>,
    name: Seq<char>,
    lines: Seq<Seq<char>>,
    i: int,
    c: Seq<(Seq<char>, usize)>,
)
    requires
        extends(a, b),
        values_from(a, ftt, name, lines, i, c),
    ensures
        values_from(b, ftt, name, lines, i, c),
{
    assert forall|j: int| 0 <= j < c.len() implies #[trigger] value_line(b, ftt, name, lines, i, c[j]) by {
        assert(value_line(a, ftt, name, lines, i, c[j]));
        let k = choose|k: int|
            #![trigger split_seq(lines[k], ':')]
            0 <= k < i && split_seq(lines[k], ':')[0] == c[j].0 && (forall|k2: int|
                k < k2 < i ==> split_seq(#[trigger] lines[k2], ':')[0] != c[j].0) && group_ok(
                a,
                ftt,
                c[j].1,
                name,
                split_seq(lines[k], ':'),
            );
        lemma_group_extend(a, b, ftt, c[j].1, name, split_seq(lines[k], ':'));
    }
}

/// Adding phrases keeps what the compiled field types were compiled from.
proof fn lemma_types_grow(a: Processor, b: Processor, files: &ConfigFiles)
    requires
        a.types_ok(files),
        extends(a.store@, b.store@),
        b.field_to_type@ == a.field_to_type@,
        b.field_types@ == a.field_types@,
        b.prior_types@ == a.prior_types@,
    ensures
        b.types_ok(files),
{
    assert forall|n: Seq<char>| #[trigger] lookup(b.field_types@, n) is Some && lookup(b.prior_types@, n) is None implies {
        &&& file_index(files.field_types@, n) >= 0
        &&& custom_ok(b.store@, b.field_to_type@, lookup(b.field_types@, n).unwrap(), n, files.field_type_lines(n))
    } by {
        assert(lookup(a.field_types@, n) is Some);
        lemma_custom_extend(
            a.store@,
            b.store@,
            a.field_to_type@,
            lookup(a.field_types@, n).unwrap(),
            n,
            files.field_type_lines(n),
        );
    }
}

/// A field made against some phrases is still so when more are added.
proof fn lemma_field_made_extend(
    a: Seq<Phrase>,
    b: Seq<Phrase>,
    ftt: Seq<(Seq<char>, String)>,
    prior: Seq<(Seq<char>, FieldType)>,
    files: &ConfigFiles,
    id: usize,
    n: Seq<char>,
)
    requires
        extends(a, b),
        field_made_ok(a, ftt, prior, files, id, n),
    ensures
        field_made_ok(b, ftt, prior, files, id, n),
{
    assert(b[id as int] == a[id as int]);
    let f = a[id as int]->Field_0;
    let tn = field_type_name(ftt, n).unwrap();
    if !builtin_type_name(tn) && lookup(prior, tn) is None {
        lemma_custom_extend(a, b, ftt, f.kind(), tn, files.field_type_lines(tn));
    }
}

/// Adding phrases keeps what the made fields were made of.
proof fn lemma_fields_grow(a: Processor, b: Processor, files: &ConfigFiles)
    requires
        a.fields_ok(files),
        extends(a.store@, b.store@),
        b.field_to_type@ == a.field_to_type@,
        b.fields@ == a.fields@,
        b.prior_types@ == a.prior_types@,
        b.prior_fields@ == a.prior_fields@,
    ensures
        b.fields_ok(files),
{
    assert forall|n: Seq<char>| #[trigger] lookup(b.fields@, n) is Some && lookup(b.prior_fields@, n) is None implies field_made_ok(
        b.store@,
        b.field_to_type@,
        b.prior_types@,
        files,
        lookup(b.fields@, n).unwrap(),
        n,
    ) by {
        assert(lookup(a.fields@, n) is Some);
        lemma_field_made_extend(
            a.store@,
            b.store@,
            a.field_to_type@,
            a.prior_types@,
            files,
            lookup(a.fields@, n).unwrap(),
            n,
        );
    }
}

/// Adding phrases keeps a processor well formed.
proof fn lemma_store_grow(a: Processor, b: Processor)
    requires
        a.wf(),
        b.store.wf(),
        extends(a.store@, b.store@),
        b.base_node == a.base_node,
        b.phrases == a.phrases,
        b.fields == a.fields,
        b.field_types == a.field_types,
    ensures
        b.wf(),
{
    a.base_node.lemma_wf_mono(a.store@.len() as int, b.store@.len() as int);
    assert forall|i: int| 0 <= i < b.phrases@.len() implies {
        let (n, id) = #[trigger] b.phrases@[i];
        &&& id < b.store@.len()
        &&& b.store@[id as int] is Group
        &&& b.store@[id as int].name_view() == n
    } by {
        let (n, id) = a.phrases@[i];
        assert(b.store@[id as int] == a.store@[id as int]);
    }
    assert forall|i: int| 0 <= i < b.fields@.len() implies {
        let (n, id) = #[trigger] b.fields@[i];
        &&& id < b.store@.len()
        &&& b.store@[id as int] is Field
        &&& b.store@[id as int].name_view() == n
    } by {
        let (n, id) = a.fields@[i];
        assert(b.store@[id as int] == a.store@[id as int]);
    }
}

proof fn lemma_ref_cached_extend(a: Processor, b: Processor, files: &ConfigFiles, id: usize, seg: Segment)
    requires
        frame(a, b, files),
        ref_cached(a, id, seg),
        id < a.store@.len(),
    ensures
        ref_cached(b, id, seg),
{
    assert(b.store@[id as int] == a.store@[id as int]);
    if let Segment::Reference(n) = seg {
        if a.store@[id as int] is Group {
            assert(lookup(a.phrases@, n) is Some);
        }
        if a.store@[id as int] is Field {
            assert(lookup(a.fields@, n) is Some);
        }
    }
}

proof fn lemma_line_cached_extend(a: Processor, b: Processor, files: &ConfigFiles, id: usize, line: Seq<char>)
    requires
        frame(a, b, files),
        line_cached(a, id, line),
        line_ok(a.store@, a.field_to_type@, id, line),
    ensures
        line_cached(b, id, line),
{
    let segs = segments(line);
    if segs.len() == 1 {
        lemma_ref_cached_extend(a, b, files, id, segs[0]);
    } else {
        assert(b.store@[id as int] == a.store@[id as int]);
        if let Phrase::Meta(m) = a.store@[id as int] {
            assert forall|j: int| 0 <= j < m.parts().len() && j < segs.len() implies #[trigger] ref_cached(
                b,
                m.parts()[j],
                segs[j],
            ) by {
                assert(segment_ok(a.store@, a.field_to_type@, m.parts()[j], segs[j]));
                lemma_ref_cached_extend(a, b, files, m.parts()[j], segs[j]);
            }
        }
    }
}

/// Compiling more keeps every added line in place.
proof fn lemma_line_added_frame(a: Processor, b: Processor, files: &ConfigFiles, line: Seq<char>, task: Seq<char>)
    requires
        frame(a, b, files),
        line_added(a, line, task),
    ensures
        line_added(b, line, task),
{
    let ids = choose|ids: Seq<usize>|
        #![trigger task_at(a.tree(), ids)]
        ids_ok(a.phrase_store(), a.field_table(), ids, segments(line)) && (forall|k: int|
            0 <= k < ids.len() ==> #[trigger] ref_cached(a, ids[k], segments(line)[k])) && task_at(a.tree(), ids) == Some(
            task,
        );
    lemma_ids_extend(a.store@, b.store@, a.field_to_type@, ids, segments(line));
    assert forall|k: int| 0 <= k < ids.len() implies #[trigger] ref_cached(b, ids[k], segments(line)[k]) by {
        assert(segment_ok(a.store@, a.field_to_type@, ids[k], segments(line)[k]));
        lemma_ref_cached_extend(a, b, files, ids[k], segments(line)[k]);
    }
    assert(task_at(b.tree(), ids) == task_at(a.tree(), ids));
}

/// Adding a path to a task keeps every added line with a non-empty task in place.
proof fn lemma_line_added_tree(a: Processor, b: Processor, line: Seq<char>, task: Seq<char>, p: Seq<usize>, t: Seq<char>)
    requires
        b.store == a.store,
        b.field_to_type == a.field_to_type,
        b.phrases == a.phrases,
        b.fields == a.fields,
        path_added_among(a.tree(), b.tree(), p, t),
        !conflicting(task_at(a.tree(), p), t),
        line_added(a, line, task),
        task.len() > 0,
    ensures
        line_added(b, line, task),
{
    let ids = choose|ids: Seq<usize>|
        #![trigger task_at(a.tree(), ids)]
        ids_ok(a.phrase_store(), a.field_table(), ids, segments(line)) && (forall|k: int|
            0 <= k < ids.len() ==> #[trigger] ref_cached(a, ids[k], segments(line)[k])) && task_at(a.tree(), ids) == Some(
            task,
        );
    assert forall|k: int| 0 <= k < ids.len() implies #[trigger] ref_cached(b, ids[k], segments(line)[k]) by {
        assert(ref_cached(a, ids[k], segments(line)[k]));
    }
    if ids != p {
        assert(task_at(b.tree(), ids) == task_at(a.tree(), ids));
    }
    assert(task_at(b.tree(), ids) == Some(task));
}

proof fn lemma_frame_trans(a: Processor, b: Processor, c: Processor, files: &ConfigFiles)
    requires
        frame(a, b, files),
        frame(b, c, files),
    ensures
        frame(a, c, files),
{
}

/// Joins pieces into one string.
fn concat3(a: &str, b: &str, c: &str) -> (res: String)
    ensures
        res@ == a@ + b@ + c@,
{
    let mut res = String::from_str(a);
    res.append(b);
    res.append(c);
    res
}

impl Processor {
    /// Whether `name` is being compiled.
    fn is_compiling(&self, name: &String) -> (res: bool)
        ensures
            res == self.stack().contains(name@),
    {
        let mut i: usize = 0;
        while i < self.compiling.len()
            invariant
                i <= self.compiling@.len(),
                forall|j: int| 0 <= j < i ==> self.compiling@[j]@ != name@,
            decreases self.compiling.len() - i,
        {
            if self.compiling[i] == *name {
                proof {
                    assert(self.stack()[i as int] == name@);
                }
                return true;
            }
            i = i + 1;
        }
        proof {
            if self.stack().contains(name@) {
                let j = choose|j: int| 0 <= j < self.stack().len() && self.stack()[j] == name@;
                assert(self.compiling@[j]@ == name@);
            }
        }
        false
    }

    /// The path of the file `name` in the directory `dir` of the configuration.
    fn path_of(&self, dir: &str, name: &String) -> (res: String)
        ensures
            res@ == file_path(self.config_path@, dir@, name@),
    {
        let mut res = self.config_path.clone();
        res.append("/");
        res.append(dir);
        res.append("/");
        res.append(name.as_str());
        res.append(".td");
        res
    }

    /// Starts compiling file `idx` of `files`, known as `key`.
    fn push_compiling(&mut self, key: String, Ghost(idx): Ghost<int>, files: &ConfigFiles)
        requires
            old(self).compiling_ok(files),
            0 <= idx < files.total(),
            key@ == files.key(idx),
            !old(self).stack().contains(key@),
        ensures
            final(self).compiling_ok(files),
            old(self).cache_ok(files) ==> final(self).cache_ok(files),
            old(self).types_ok(files) ==> final(self).types_ok(files),
            old(self).fields_ok(files) ==> final(self).fields_ok(files),
            final(self).prior == old(self).prior,
            final(self).prior_types == old(self).prior_types,
            final(self).prior_fields == old(self).prior_fields,
            final(self).open_count() == old(self).open_count() + 1,
            final(self).compiling@ == old(self).compiling@.push(key),
            final(self).open_sources@ == old(self).open_sources@.push(idx),
            final(self).store == old(self).store,
            final(self).base_node == old(self).base_node,
            final(self).config_path == old(self).config_path,
            final(self).field_to_type == old(self).field_to_type,
            final(self).field_types == old(self).field_types,
            final(self).fields == old(self).fields,
            final(self).phrases == old(self).phrases,
    {
        let ghost old_open = self.open_sources@;
        proof {
            let base = self.compiling@.len() - old_open.len();
            assert forall|k: int| 0 <= k < old_open.len() implies old_open[k] != idx by {
                assert(self.compiling@[base + k]@ == files.key(old_open[k]));
                if old_open[k] == idx {
                    assert(self.stack()[base + k] == key@);
                }
            }
        }
        let ghost old_compiling = self.compiling@;
        self.compiling.push(key);
        self.open_sources = Ghost(old_open.push(idx));
        proof {
            let base = old_compiling.len() - old_open.len();
            assert forall|k: int|
                #![trigger self.open_sources@[k]]
                0 <= k < self.open_sources@.len() implies 0 <= self.open_sources@[k] < files.total()
                    && self.compiling@[base + k]@ == files.key(self.open_sources@[k]) by {
                if k < old_open.len() {
                    assert(old_open[k] == self.open_sources@[k]);
                    assert(self.compiling@[base + k] == old_compiling[base + k]);
                }
            }
            assert(self.open_sources@.no_duplicates()) by {
                assert forall|a: int, b: int|
                    0 <= a < self.open_sources@.len() && 0 <= b < self.open_sources@.len() && a != b implies self.open_sources@[a]
                    != self.open_sources@[b] by {
                    if a < old_open.len() && b < old_open.len() {
                        assert(old_open[a] != old_open[b]);
                    }
                }
            }
            lemma_distinct_bounded(self.open_sources@, files.total());
            if old(self).cache_ok(files) {
                lemma_cache_grow(*old(self), *self, files);
            }
            if old(self).types_ok(files) {
                lemma_types_grow(*old(self), *self, files);
            }
            if old(self).fields_ok(files) {
                lemma_fields_grow(*old(self), *self, files);
            }
        }
    }

    /// Stops compiling what was started last; `false` if that was not `key`.
    fn pop_compiling(&mut self, key: &String, Ghost(files): Ghost<&ConfigFiles>) -> (res: bool)
        requires
            old(self).compiling_ok(files),
        ensures
            final(self).compiling_ok(files),
            old(self).cache_ok(files) ==> final(self).cache_ok(files),
            old(self).types_ok(files) ==> final(self).types_ok(files),
            old(self).fields_ok(files) ==> final(self).fields_ok(files),
            final(self).prior == old(self).prior,
            final(self).prior_types == old(self).prior_types,
            final(self).prior_fields == old(self).prior_fields,
            res ==> old(self).stack().len() > 0 && old(self).stack().last() == key@ && final(self).compiling@
                == old(self).compiling@.drop_last(),
            old(self).stack().len() > 0 && old(self).stack().last() == key@ ==> res,
            old(self).open_sources@.len() > 0 ==> final(self).open_sources@ == old(self).open_sources@.drop_last(),
            final(self).store == old(self).store,
            final(self).base_node == old(self).base_node,
            final(self).config_path == old(self).config_path,
            final(self).field_to_type == old(self).field_to_type,
            final(self).field_types == old(self).field_types,
            final(self).fields == old(self).fields,
            final(self).phrases == old(self).phrases,
    {
        let ghost old_open = self.open_sources@;
        let top = self.compiling.pop();
        let ghost new_open = if old_open.len() > 0 {
            old_open.drop_last()
        } else {
            old_open
        };
        self.open_sources = Ghost(new_open);
        proof {
            assert forall|a: int, b: int|
                0 <= a < self.open_sources@.len() && 0 <= b < self.open_sources@.len() && a != b implies self.open_sources@[a]
                != self.open_sources@[b] by {
                assert(old_open[a] != old_open[b]);
            }
            let base = old(self).compiling@.len() - old_open.len();
            assert forall|k: int|
                #![trigger self.open_sources@[k]]
                0 <= k < self.open_sources@.len() implies 0 <= self.open_sources@[k] < files.total()
                    && self.compiling@[base + k]@ == files.key(self.open_sources@[k]) by {
                assert(self.open_sources@[k] == old_open[k]);
                assert(self.compiling@[base + k] == old(self).compiling@[base + k]);
            }
        }
        proof {
            if old(self).cache_ok(files) {
                lemma_cache_grow(*old(self), *self, files);
            }
            if old(self).types_ok(files) {
                lemma_types_grow(*old(self), *self, files);
            }
            if old(self).fields_ok(files) {
                lemma_fields_grow(*old(self), *self, files);
            }
        }
        match top {
            Some(t) => {
                proof {
                    assert(old(self).stack().last() == t@);
                }
                t == *key
            },
            None => false,
        }
    }

    /// Compiles the phrase `name` from its file, one alternative per line.
    fn compile_phrase(&mut self, name: &String, files: &ConfigFiles) -> (res: Result<usize, String>)
        requires
            old(self).wf(),
            old(self).compiling_ok(files),
            old(self).cache_ok(files),
            old(self).types_ok(files),
            old(self).fields_ok(files),
        ensures
            frame(*old(self), *final(self), files),
            res is Ok ==> same_stack(*old(self), *final(self)),
            res matches Ok(id) ==> file_index(files.phrases@, name@) >= 0 && group_ok(
                final(self).phrase_store(),
                final(self).field_table(),
                id,
                name@,
                files.phrase_lines(name@),
            ),
            res matches Ok(id) ==> group_cached(*final(self), id, files.phrase_lines(name@)),
            phrase_error(*old(self), files, name@) matches Some(e) ==> (res matches Err(m) && m@ == e),
            forall|r: int|
                #[trigger] first_reference(files.phrase_lines(name@)[0], r) && segments(files.phrase_lines(name@)[0])[r]
                    == Segment::Reference(name@) && lookup(old(self).field_table(), name@) is None && lookup(
                    old(self).phrase_table(),
                    name@,
                ) is None && phrase_error(*old(self), files, name@) is None ==> (res matches Err(m) && m@
                    == already_compiling_message(name@) && final(self).phrase_table() == old(self).phrase_table()
                    && final(self).field_cache() == old(self).field_cache()
                    && final(self).type_cache() == old(self).type_cache() && final(self).stack() == old(self).stack()),
            forall|f: nat|
                #[trigger] phrase_compiles(files, types_of(old(self).field_to_type@), old(self).stack(), name@, f)
                    ==> res is Ok,
            old(self).stack().contains("phrase:"@ + name@) || file_index(files.phrases@, name@) < 0 ==> *final(self)
                == *old(self),
            !old(self).stack().contains("phrase:"@ + name@) && file_index(files.phrases@, name@) >= 0
                && files.phrases@[file_index(files.phrases@, name@)].contents@.len() == 0 ==> final(self).stack()
                == old(self).stack().push("phrase:"@ + name@) && final(self).phrase_store() == old(self).phrase_store()
                && final(self).phrase_table() == old(self).phrase_table() && final(self).type_cache() == old(
                self,
            ).type_cache() && final(self).field_cache() == old(self).field_cache() && final(self).field_table()
                == old(self).field_table() && final(self).tree() == old(self).tree(),
        decreases files.total() - old(self).open_count(), 1int,
    {
        let mut key = String::from_str("phrase:");
        key.append(name.as_str());
        if self.is_compiling(&key) {
            return Err(concat3("Cannot compile '", name.as_str(), "' because it is already compiling"));
        }
        let path = self.path_of("phrases", name);
        let idx = match find_file(&files.phrases, name) {
            Some(i) => i,
            None => {
                return Err(concat3("Could not open '", path.as_str(), "'"));
            },
        };
        let ghost before = *self;
        self.push_compiling(key.clone(), Ghost(idx as int), files);
        let contents = &files.phrases[idx].contents;
        if contents.as_str().is_empty() {
            return Err(concat3("Could not read '", path.as_str(), "'"));
        }
        let lines = split(contents.as_str(), '\n');
        let ghost pushed = *self;
        proof {
            assert(pushed.stack() =~= before.stack().push(key@));
            assert(views(lines@) == split_seq(files.phrases@[idx as int].contents@, '\n'));
        }
        let result = self.compile(&lines, name, files);
        proof {
            if result is Ok {
                assert(self.stack() == pushed.stack());
                assert(self.stack().last() == key@);
            } else {
                assert forall|f: nat|
                    !#[trigger] phrase_compiles(files, types_of(before.field_to_type@), before.stack(), name@, f) by {
                    if phrase_compiles(files, types_of(before.field_to_type@), before.stack(), name@, f) {
                        assert(lines_compile(
                            files,
                            types_of(pushed.field_to_type@),
                            pushed.stack(),
                            views(lines@),
                            (f - 1) as nat,
                        ));
                    }
                }
            }
        }
        let ghost compiled = *self;
        proof {
            lemma_split_nonempty(files.phrases@[idx as int].contents@, '\n');
            assert(views(lines@)[0] == lines@[0]@);
            assert forall|r: int|
                #[trigger] first_reference(files.phrase_lines(name@)[0], r) && segments(files.phrase_lines(name@)[0])[r]
                    == Segment::Reference(name@) && lookup(before.field_table(), name@) is None && lookup(
                    before.phrase_table(),
                    name@,
                ) is None implies result matches Err(m) && m@ == already_compiling_message(name@)
                && compiled.phrase_table() == before.phrase_table() && compiled.field_cache() == before.field_cache()
                && compiled.type_cache() == before.type_cache() && compiled.stack() == pushed.stack() by {
                assert(lines@[0]@ == files.phrase_lines(name@)[0]);
                assert(pushed.stack().contains(key@)) by {
                    assert(pushed.stack().last() == key@);
                }
                assert(reentering(pushed, segments(lines@[0]@)[r]));
            }
        }
        if !self.pop_compiling(&key, Ghost(files)) {
            return Err(concat3("Cannot remove '", name.as_str(), "' as it is not last in compiling list"));
        }
        proof {
            if let Ok(id) = result {
                assert(group_cached(compiled, id, files.phrase_lines(name@)));
                assert(self.phrase_store() == compiled.phrase_store());
                assert(self.phrase_table() == compiled.phrase_table());
                assert(self.field_cache() == compiled.field_cache());
                let ls = files.phrase_lines(name@);
                if let Phrase::Group(g) = self.phrase_store()[id as int] {
                    assert forall|k: int| 0 <= k < ls.len() implies #[trigger] line_cached(*self, g.members()[k], ls[k]) by {
                        assert(line_cached(compiled, g.members()[k], ls[k]));
                        let segs = segments(ls[k]);
                        if segs.len() == 1 {
                            assert(ref_cached(compiled, g.members()[k], segs[0]));
                        } else if let Phrase::Meta(m) = self.phrase_store()[g.members()[k] as int] {
                            assert forall|j: int| 0 <= j < m.parts().len() && j < segs.len() implies #[trigger] ref_cached(
                                *self,
                                m.parts()[j],
                                segs[j],
                            ) by {
                                assert(ref_cached(compiled, m.parts()[j], segs[j]));
                            }
                        }
                    }
                }
            }
            if result is Ok {
                assert(self.compiling@ =~= before.compiling@);
                assert(self.open_sources@ =~= before.open_sources@);
            }
            assert(views(self.compiling@) =~= views(compiled.compiling@).drop_last());
            assert(views(pushed.compiling@).drop_last() =~= views(before.compiling@));
        }
        result
    }

    /// Compiles the lines `lines` into a group named `name`.
    fn compile(&mut self, lines: &Vec<String>, name: &String, files: &ConfigFiles) -> (res: Result<usize, String>)
        requires
            old(self).wf(),
            old(self).compiling_ok(files),
            old(self).cache_ok(files),
            old(self).types_ok(files),
            old(self).fields_ok(files),
        ensures
            frame(*old(self), *final(self), files),
            res is Ok ==> same_stack(*old(self), *final(self)),
            res matches Ok(id) ==> group_ok(
                final(self).phrase_store(),
                final(self).field_table(),
                id,
                name@,
                views(lines@),
            ),
            res matches Ok(id) ==> id < final(self).store@.len() && final(self).store@[id as int] is Group
                && final(self).store@[id as int].name_view() == name@,
            res matches Ok(id) ==> group_cached(*final(self), id, views(lines@)),
            lines@.len() > 0 ==> forall|r: int|
                #[trigger] first_reference(lines@[0]@, r) && reentering(*old(self), segments(lines@[0]@)[r]) ==> (res matches Err(
                    m,
                ) && m@ == ref_error(*old(self), files, segments(lines@[0]@)[r]).unwrap()
                    && final(self).phrase_table() == old(self).phrase_table()
                    && final(self).field_cache() == old(self).field_cache()
                    && final(self).type_cache() == old(self).type_cache() && final(self).stack() == old(self).stack()),
            forall|f: nat|
                #[trigger] lines_compile(files, types_of(old(self).field_to_type@), old(self).stack(), views(lines@), f)
                    ==> res is Ok,
        decreases files.total() - old(self).open_count(), 7int,
    {
        let ghost start = *self;
        let mut group = GroupPhrase::new(name, Vec::new());
        let mut i: usize = 0;
        while i < lines.len()
            invariant
                i <= lines@.len(),
                frame(start, *self, files),
                same_stack(start, *self),
                start == *old(self),
                group.name_view() == name@,
                group.members().len() == i,
                all_below(group.members(), self.store@.len() as int),
                forall|k: int|
                    0 <= k < i ==> #[trigger] line_ok(self.store@, self.field_to_type@, group.members()[k], lines@[k]@),
                forall|k: int| 0 <= k < i ==> #[trigger] line_cached(*self, group.members()[k], lines@[k]@),
                i == 0 ==> *self == start,
                i > 0 ==> forall|r: int|
                    !(#[trigger] first_reference(lines@[0]@, r) && reentering(start, segments(lines@[0]@)[r])),
            decreases lines.len() - i,
        {
            let ghost before = *self;
            let line_ids = match self.compile_line(&lines[i], files) {
                Ok(ids) => ids,
                Err(e) => {
                    proof {
                        assert(before.stack() == start.stack());
                        assert forall|f: nat|
                            !#[trigger] lines_compile(files, types_of(start.field_to_type@), start.stack(), views(lines@), f) by {
                            if lines_compile(files, types_of(start.field_to_type@), start.stack(), views(lines@), f) {
                                assert(views(lines@)[i as int] == lines@[i as int]@);
                                assert(line_compiles(
                                    files,
                                    types_of(start.field_to_type@),
                                    start.stack(),
                                    views(lines@)[i as int],
                                    f,
                                ));
                            }
                        }
                    }
                    return Err(e);
                },
            };
            let ghost mid = *self;
            let ghost prev_members = group.members();
            if line_ids.len() == 1 {
                proof {
                    assert(segment_ok(self.store@, self.field_to_type@, line_ids@[0], segments(lines@[i as int]@)[0]));
                }
                group.push(line_ids[0]);
            } else {
                let meta = MetaPhrase::new(&String::new(), line_ids);
                proof {
                    assert forall|j: int| 0 <= j < meta.parts().len() implies #[trigger] meta.parts()[j]
                        < self.store@.len() by {
                        assert(segment_ok(self.store@, self.field_to_type@, line_ids@[j], segments(lines@[i as int]@)[j]));
                    }
                }
                let meta_id = self.store.add(Phrase::Meta(meta));
                group.push(meta_id);
                proof {
                    lemma_store_grow(mid, *self);
                    lemma_cache_grow(mid, *self, files);
                    lemma_types_grow(mid, *self, files);
                    lemma_fields_grow(mid, *self, files);
                }
            }
            proof {
                assert(extends(mid.store@, self.store@));
                assert forall|k: int|
                    0 <= k < i + 1 implies #[trigger] line_ok(self.store@, self.field_to_type@, group.members()[k], lines@[k]@) by {
                    if k < i {
                        assert(group.members()[k] == prev_members[k]);
                        lemma_line_extend(before.store@, self.store@, self.field_to_type@, prev_members[k], lines@[k]@);
                    } else {
                        if line_ids@.len() != 1 {
                            lemma_ids_extend(mid.store@, self.store@, self.field_to_type@, line_ids@, segments(lines@[k]@));
                        }
                    }
                }
                assert forall|j: int| 0 <= j < group.members().len() implies #[trigger] group.members()[j] < self.store@.len() by {
                    if j < i {
                        assert(group.members()[j] == prev_members[j]);
                    }
                }
                assert(frame(before, *self, files));
                assert forall|k: int| 0 <= k < i + 1 implies #[trigger] line_cached(*self, group.members()[k], lines@[k]@) by {
                    if k < i {
                        assert(group.members()[k] == prev_members[k]);
                        assert(line_cached(before, prev_members[k], lines@[k]@));
                        assert(line_ok(before.store@, before.field_to_type@, prev_members[k], lines@[k]@));
                        lemma_line_cached_extend(before, *self, files, prev_members[k], lines@[k]@);
                    } else if line_ids@.len() == 1 {
                        assert(ref_cached(mid, line_ids@[0], segments(lines@[k]@)[0]));
                        lemma_ref_cached_extend(mid, *self, files, line_ids@[0], segments(lines@[k]@)[0]);
                    } else {
                        assert forall|j: int| 0 <= j < line_ids@.len() implies #[trigger] ref_cached(
                            *self,
                            line_ids@[j],
                            segments(lines@[k]@)[j],
                        ) by {
                            assert(ref_cached(mid, line_ids@[j], segments(lines@[k]@)[j]));
                            assert(segment_ok(mid.store@, mid.field_to_type@, line_ids@[j], segments(lines@[k]@)[j]));
                            lemma_ref_cached_extend(mid, *self, files, line_ids@[j], segments(lines@[k]@)[j]);
                        }
                    }
                }
            }
            i = i + 1;
        }
        let ghost pre = *self;
        let id = self.store.add(Phrase::Group(group));
        proof {
            reveal(group_ok);
            lemma_store_grow(pre, *self);
            lemma_cache_grow(pre, *self, files);
            lemma_types_grow(pre, *self, files);
            lemma_fields_grow(pre, *self, files);
            assert(views(lines@).len() == lines@.len());
            assert forall|k: int| 0 <= k < lines@.len() implies #[trigger] line_ok(
                self.store@,
                self.field_to_type@,
                group.members()[k],
                views(lines@)[k],
            ) by {
                lemma_line_extend(pre.store@, self.store@, self.field_to_type@, group.members()[k], lines@[k]@);
            }
            assert(frame(pre, *self, files));
            assert forall|k: int| 0 <= k < lines@.len() implies #[trigger] line_cached(
                *self,
                group.members()[k],
                views(lines@)[k],
            ) by {
                assert(line_cached(pre, group.members()[k], lines@[k]@));
                lemma_line_cached_extend(pre, *self, files, group.members()[k], lines@[k]@);
            }
        }
        Ok(id)
    }
    /// Compiles one line: each piece of text becomes a word phrase, each reference
    /// the field or the phrase it names (a field if the field table knows the name).
    #[verifier::rlimit(30)]
    fn compile_line(&mut self, line: &String, files: &ConfigFiles) -> (res: Result<Vec<usize>, String>)
        requires
            old(self).wf(),
            old(self).compiling_ok(files),
            old(self).cache_ok(files),
            old(self).types_ok(files),
            old(self).fields_ok(files),
        ensures
            frame(*old(self), *final(self), files),
            res is Ok ==> same_stack(*old(self), *final(self)),
            res matches Ok(ids) ==> ids_ok(final(self).store@, final(self).field_to_type@, ids@, segments(line@)),
            res matches Ok(ids) ==> forall|k: int|
                0 <= k < ids@.len() ==> #[trigger] ref_cached(*final(self), ids@[k], segments(line@)[k]),
            segments(line@).len() == 0 ==> (res matches Err(m) && m@ == no_phrases_message()) && *final(self)
                == *old(self),
            (forall|k: int| 0 <= k < segments(line@).len() ==> (#[trigger] segments(line@)[k]) is Text)
                ==> final(self).phrase_table() == old(self).phrase_table()
                && final(self).field_cache() == old(self).field_cache()
                && final(self).type_cache() == old(self).type_cache() && final(self).stack() == old(self).stack(),
            forall|r: int|
                #![trigger segments(line@)[r]]
                0 <= r < segments(line@).len() && (forall|k: int| 0 <= k < r ==> (#[trigger] segments(line@)[k]) is Text)
                    && ref_error(*old(self), files, segments(line@)[r]) is Some ==> (res matches Err(m) && m@ == ref_error(
                    *old(self),
                    files,
                    segments(line@)[r],
                ).unwrap()),
            forall|r: int|
                #[trigger] first_reference(line@, r) && reentering(*old(self), segments(line@)[r]) ==> res is Err
                    && final(self).phrase_table() == old(self).phrase_table()
                    && final(self).field_cache() == old(self).field_cache()
                    && final(self).type_cache() == old(self).type_cache() && final(self).stack() == old(self).stack(),
            forall|f: nat|
                #[trigger] line_compiles(files, types_of(old(self).field_to_type@), old(self).stack(), line@, f) ==> res is Ok,
        decreases files.total() - old(self).open_count(), 6int,
    {
        let segs = line_segments(line.as_str());
        let ghost start = *self;
        let mut ids: Vec<usize> = Vec::new();
        let mut i: usize = 0;
        while i < segs.len()
            invariant
                i <= segs@.len(),
                start == *old(self),
                frame(start, *self, files),
                same_stack(start, *self),
                segment_views(segs@) == segments(line@),
                ids@.len() == i,
                i == 0 ==> *self == start,
                forall|k: int|
                    0 <= k < i ==> #[trigger] segment_ok(self.store@, self.field_to_type@, ids@[k], segments(line@)[k]),
                forall|k: int| 0 <= k < i ==> #[trigger] ref_cached(*self, ids@[k], segments(line@)[k]),
                (forall|k: int| 0 <= k < i ==> (#[trigger] segments(line@)[k]) is Text) ==> self.phrases == start.phrases
                    && self.fields == start.fields && self.field_types == start.field_types && self.compiling
                    == start.compiling && self.field_to_type == start.field_to_type && self.config_path
                    == start.config_path,
                forall|r: int|
                    #![trigger segments(line@)[r]]
                    0 <= r < i && (forall|k: int| 0 <= k < r ==> (#[trigger] segments(line@)[k]) is Text) ==> ref_error(
                        start,
                        files,
                        segments(line@)[r],
                    ) is None,
                forall|r: int| 0 <= r < i ==> !(#[trigger] first_reference(line@, r) && reentering(start, segments(line@)[r])),
            decreases segs.len() - i,
        {
            let ghost before = *self;
            let ghost prev_ids = ids@;
            proof {
                assert(segments(line@)[i as int] == segs@[i as int]@);
            }
            match &segs[i] {
                LineSegment::Text(t) => {
                    let word = WordPhrase::new(t, t.clone());
                    let id = self.store.add(Phrase::Word(word));
                    proof {
                        lemma_store_grow(before, *self);
                        lemma_cache_grow(before, *self, files);
                        lemma_types_grow(before, *self, files);
                        lemma_fields_grow(before, *self, files);
                        assert(frame(before, *self, files));
                        assert(self.store@[id as int] == Phrase::Word(word));
                        assert(segment_ok(self.store@, self.field_to_type@, id, segments(line@)[i as int]));
                    }
                    ids.push(id);
                },
                LineSegment::Reference(n) => {
                    let is_field = self.field_to_type.get(n).is_some();
                    let found = if is_field {
                        self.get_field_phrase(n, files)
                    } else {
                        self.get_phrase(n, files)
                    };
                    match found {
                        Ok(id) => {
                            proof {
                                assert(segment_ok(self.store@, self.field_to_type@, id, segments(line@)[i as int]));
                                assert(ref_cached(*self, id, segments(line@)[i as int]));
                            }
                            ids.push(id);
                        },
                        Err(e) => {
                            proof {
                                assert(before.stack() == start.stack());
                                assert forall|f: nat|
                                    !#[trigger] line_compiles(files, types_of(start.field_to_type@), start.stack(), line@, f) by {
                                    if line_compiles(files, types_of(start.field_to_type@), start.stack(), line@, f) {
                                        assert(seg_compiles(
                                            files,
                                            types_of(start.field_to_type@),
                                            start.stack(),
                                            segments(line@)[i as int],
                                            f,
                                        ));
                                        assert(types_of(start.field_to_type@)(n@) == field_type_name(start.field_to_type@, n@));
                                        assert(segments(line@)[i as int] == Segment::Reference(n@));
                                        if is_field {
                                            assert(seg_compiles(
                                                files,
                                                types_of(before.field_to_type@),
                                                before.stack(),
                                                Segment::Reference(n@),
                                                f,
                                            ));
                                        } else {
                                            assert(phrase_compiles(files, types_of(before.field_to_type@), before.stack(), n@, f));
                                        }
                                    }
                                }
                                if first_reference(line@, i as int) && reentering(start, segments(line@)[i as int]) {
                                    assert(before.phrases == start.phrases && before.compiling == start.compiling
                                        && before.field_to_type == start.field_to_type);
                                    assert(!is_field);
                                    assert(*self == before);
                                }
                                assert forall|r: int|
                                    #[trigger] first_reference(line@, r) && reentering(start, segments(line@)[r]) implies r
                                    == i by {
                                    if r > i {
                                        assert(segments(line@)[i as int] is Text);
                                    }
                                }
                            }
                            return Err(e);
                        },
                    }
                },
            }
            proof {
                assert forall|k: int| 0 <= k < i + 1 implies #[trigger] segment_ok(
                    self.store@,
                    self.field_to_type@,
                    ids@[k],
                    segments(line@)[k],
                ) by {
                    if k < i {
                        assert(ids@[k] == prev_ids[k]);
                        assert(segment_ok(before.store@, before.field_to_type@, prev_ids[k], segments(line@)[k]));
                        lemma_segment_extend(before.store@, self.store@, self.field_to_type@, prev_ids[k], segments(line@)[k]);
                    }
                }
                assert forall|k: int| 0 <= k < i + 1 implies #[trigger] ref_cached(*self, ids@[k], segments(line@)[k]) by {
                    if k < i {
                        assert(ids@[k] == prev_ids[k]);
                        assert(segment_ok(before.store@, before.field_to_type@, prev_ids[k], segments(line@)[k]));
                        assert(ref_cached(before, prev_ids[k], segments(line@)[k]));
                        lemma_segment_extend(before.store@, self.store@, self.field_to_type@, prev_ids[k], segments(line@)[k]);
                        lemma_ref_cached_extend(before, *self, files, prev_ids[k], segments(line@)[k]);
                    }
                }
            }
            i = i + 1;
        }
        if ids.len() == 0 {
            return Err(String::from_str("Could not find any phrases in line"));
        }
        Ok(ids)
    }

    /// The phrase called `name`: the one compiled before, or else compiled now and
    /// kept.
    fn get_phrase(&mut self, name: &String, files: &ConfigFiles) -> (res: Result<usize, String>)
        requires
            old(self).wf(),
            old(self).compiling_ok(files),
            old(self).cache_ok(files),
            old(self).types_ok(files),
            old(self).fields_ok(files),
        ensures
            frame(*old(self), *final(self), files),
            res is Ok ==> same_stack(*old(self), *final(self)),
            res matches Ok(id) ==> id < final(self).store@.len() && final(self).store@[id as int] is Group
                && final(self).store@[id as int].name_view() == name@ && lookup(final(self).phrases@, name@) == Some(id),
            lookup(old(self).phrases@, name@) matches Some(id) ==> res == Ok::<usize, String>(id) && *final(self)
                == *old(self),
            lookup(old(self).phrases@, name@) is None ==> (phrase_error(*old(self), files, name@) matches Some(e) ==> (
            res matches Err(m) && m@ == e)),
            lookup(old(self).phrases@, name@) is None && old(self).stack().contains("phrase:"@ + name@) ==> *final(self)
                == *old(self),
            lookup(old(self).phrases@, name@) is None ==> (res matches Ok(id) ==> group_ok(
                final(self).store@,
                final(self).field_to_type@,
                id,
                name@,
                files.phrase_lines(name@),
            )),
            forall|f: nat|
                #[trigger] phrase_compiles(files, types_of(old(self).field_to_type@), old(self).stack(), name@, f)
                    ==> res is Ok,
        decreases files.total() - old(self).open_count(), 2int,
    {
        proof {
            lemma_first_key(self.phrases@, name@);
        }
        match self.phrases.get(name) {
            Some(id) => {
                return Ok(*id);
            },
            None => {},
        }
        let ghost before = *self;
        match self.compile_phrase(name, files) {
            Ok(id) => {
                let ghost mid = *self;
                self.phrases.insert(name.clone(), id);
                proof {
                    reveal(group_ok);
                    assert forall|i: int| 0 <= i < self.phrases@.len() implies {
                        let (n, pid) = #[trigger] self.phrases@[i];
                        &&& pid < self.store@.len()
                        &&& self.store@[pid as int] is Group
                        &&& self.store@[pid as int].name_view() == n
                    } by {
                        if self.phrases@[i] != (name@, id) {
                            let j = choose|j: int| 0 <= j < mid.phrases@.len() && mid.phrases@[j] == self.phrases@[i];
                            assert(mid.phrases@[j] == self.phrases@[i]);
                        }
                    }
                    assert forall|n: Seq<char>| #[trigger] lookup(before.phrases@, n) is Some implies lookup(
                        self.phrases@,
                        n,
                    ) == lookup(before.phrases@, n) by {
                        assert(lookup(mid.phrases@, n) == lookup(before.phrases@, n));
                    }
                    lemma_types_grow(mid, *self, files);
                    lemma_fields_grow(mid, *self, files);
                    assert forall|n: Seq<char>| #[trigger] lookup(self.phrases@, n) is Some && lookup(self.prior@, n) is None implies {
                        &&& file_index(files.phrases@, n) >= 0
                        &&& group_ok(self.store@, self.field_to_type@, lookup(self.phrases@, n).unwrap(), n, files.phrase_lines(n))
                    } by {
                        if n != name@ {
                            assert(lookup(mid.phrases@, n) == lookup(self.phrases@, n));
                        }
                    }
                }
                Ok(id)
            },
            Err(e) => Err(e),
        }
    }
    /// The field called `name`: the one made before, or else made now and kept.
    fn get_field_phrase(&mut self, name: &String, files: &ConfigFiles) -> (res: Result<usize, String>)
        requires
            old(self).wf(),
            old(self).compiling_ok(files),
            old(self).cache_ok(files),
            old(self).types_ok(files),
            old(self).fields_ok(files),
        ensures
            frame(*old(self), *final(self), files),
            res is Ok ==> same_stack(*old(self), *final(self)),
            res matches Ok(id) ==> id < final(self).store@.len() && final(self).store@[id as int] is Field
                && final(self).store@[id as int].name_view() == name@ && lookup(final(self).fields@, name@) == Some(id),
            lookup(old(self).fields@, name@) matches Some(id) ==> res == Ok::<usize, String>(id) && *final(self)
                == *old(self),
            lookup(old(self).fields@, name@) is None && lookup(old(self).field_to_type@, name@) is None ==> (res matches Err(
                m,
            ) && m@ == no_field_type_message(name@)),
            lookup(old(self).field_to_type@, name@) matches Some(tn) ==> (lookup(old(self).fields@, name@) is None
                && lookup(old(self).field_types@, tn@) is None && !builtin_type_name(tn@) && field_type_error(
                *old(self),
                files,
                tn@,
            ) is Some ==> (res matches Err(m) && Some(m@) == field_type_error(*old(self), files, tn@))),
            forall|f: nat|
                lookup(old(self).field_to_type@, name@) is Some && #[trigger] seg_compiles(
                    files,
                    types_of(old(self).field_to_type@),
                    old(self).stack(),
                    Segment::Reference(name@),
                    f,
                ) ==> res is Ok,
        decreases files.total() - old(self).open_count(), 5int,
    {
        proof {
            lemma_first_key(self.fields@, name@);
        }
        match self.fields.get(name) {
            Some(id) => {
                return Ok(*id);
            },
            None => {},
        }
        self.create_field(name, files)
    }

    /// Makes the field `name`, of the type the field table gives it, and keeps it.
    fn create_field(&mut self, name: &String, files: &ConfigFiles) -> (res: Result<usize, String>)
        requires
            old(self).wf(),
            old(self).compiling_ok(files),
            old(self).cache_ok(files),
            old(self).types_ok(files),
            old(self).fields_ok(files),
            lookup(old(self).fields@, name@) is None,
        ensures
            frame(*old(self), *final(self), files),
            res is Ok ==> same_stack(*old(self), *final(self)),
            res matches Ok(id) ==> id < final(self).store@.len() && final(self).store@[id as int] is Field
                && final(self).store@[id as int].name_view() == name@ && lookup(final(self).fields@, name@) == Some(id),
            res matches Ok(id) ==> (final(self).store@[id as int] matches Phrase::Field(f) && lookup(
                old(self).field_to_type@,
                name@,
            ) matches Some(tn) && builtin_kind(f.kind(), tn@)),
            lookup(old(self).field_to_type@, name@) is None ==> (res matches Err(m) && m@ == no_field_type_message(
                name@,
            )) && *final(self) == *old(self),
            lookup(old(self).field_to_type@, name@) matches Some(tn) ==> (lookup(old(self).field_types@, tn@) matches Some(
                t0,
            ) ==> (res matches Ok(id) && final(self).store@[id as int] matches Phrase::Field(f) && same_type(f.kind(), t0))),
            lookup(old(self).field_to_type@, name@) matches Some(tn) ==> (lookup(old(self).field_types@, tn@) is None
                && !builtin_type_name(tn@) && field_type_error(*old(self), files, tn@) is Some ==> (res matches Err(m)
                && Some(m@) == field_type_error(*old(self), files, tn@))),
            forall|f: nat|
                lookup(old(self).field_to_type@, name@) is Some && #[trigger] seg_compiles(
                    files,
                    types_of(old(self).field_to_type@),
                    old(self).stack(),
                    Segment::Reference(name@),
                    f,
                ) ==> res is Ok,
        decreases files.total() - old(self).open_count(), 4int,
    {
        let ft_name = match self.field_to_type.get(name) {
            Some(t) => t.clone(),
            None => {
                return Err(concat3("Could not find field type for given type '", name.as_str(), "'"));
            },
        };
        let ghost before = *self;
        let field_type = match self.get_field_type(&ft_name, files) {
            Ok(t) => t,
            Err(e) => {
                proof {
                    assert forall|f: nat|
                        !#[trigger] seg_compiles(
                            files,
                            types_of(before.field_to_type@),
                            before.stack(),
                            Segment::Reference(name@),
                            f,
                        ) by {
                        assert(types_of(before.field_to_type@)(name@) == Some(ft_name@));
                        if seg_compiles(
                            files,
                            types_of(before.field_to_type@),
                            before.stack(),
                            Segment::Reference(name@),
                            f,
                        ) {
                            assert(type_compiles(files, types_of(before.field_to_type@), before.stack(), ft_name@, f));
                        }
                    }
                }
                return Err(e);
            },
        };
        let ghost mid = *self;
        let field = Field::new(name, field_type);
        let id = self.store.add(Phrase::Field(field));
        proof {
            lemma_store_grow(mid, *self);
            lemma_cache_grow(mid, *self, files);
            lemma_types_grow(mid, *self, files);
            lemma_fields_grow(mid, *self, files);
        }
        let ghost grown = *self;
        self.fields.insert(name.clone(), id);
        proof {
            assert forall|i: int| 0 <= i < self.fields@.len() implies {
                let (n, fid) = #[trigger] self.fields@[i];
                &&& fid < self.store@.len()
                &&& self.store@[fid as int] is Field
                &&& self.store@[fid as int].name_view() == n
            } by {
                if self.fields@[i] != (name@, id) {
                    let j = choose|j: int| 0 <= j < grown.fields@.len() && grown.fields@[j] == self.fields@[i];
                    assert(grown.fields@[j] == self.fields@[i]);
                }
            }
            assert forall|n: Seq<char>| #[trigger] lookup(before.fields@, n) is Some implies lookup(self.fields@, n)
                == lookup(before.fields@, n) by {
                assert(lookup(mid.fields@, n) == lookup(before.fields@, n));
            }
            assert(self.store@[id as int] == Phrase::Field(field));
            lemma_cache_grow(grown, *self, files);
            lemma_types_grow(grown, *self, files);
            assert(field_made_ok(self.store@, self.field_to_type@, self.prior_types@, files, id, name@)) by {
                if !builtin_type_name(ft_name@) && lookup(self.prior_types@, ft_name@) is None {
                    lemma_custom_extend(
                        mid.store@,
                        self.store@,
                        self.field_to_type@,
                        field.kind(),
                        ft_name@,
                        files.field_type_lines(ft_name@),
                    );
                }
            }
            assert forall|n: Seq<char>|
                #[trigger] lookup(self.fields@, n) is Some && lookup(self.prior_fields@, n) is None implies field_made_ok(
                self.store@,
                self.field_to_type@,
                self.prior_types@,
                files,
                lookup(self.fields@, n).unwrap(),
                n,
            ) by {
                if n != name@ {
                    assert(lookup(grown.fields@, n) == lookup(self.fields@, n));
                }
            }
        }
        Ok(id)
    }

    /// The field type called `name`: one compiled before, a built-in one, or else
    /// compiled now and kept.
    fn get_field_type(&mut self, name: &String, files: &ConfigFiles) -> (res: Result<FieldType, String>)
        requires
            old(self).wf(),
            old(self).compiling_ok(files),
            old(self).cache_ok(files),
            old(self).types_ok(files),
            old(self).fields_ok(files),
        ensures
            frame(*old(self), *final(self), files),
            res is Ok ==> same_stack(*old(self), *final(self)),
            res matches Ok(t) ==> t.wf() && all_below(t.phrase_ids(), final(self).store@.len() as int) && builtin_kind(
                t,
                name@,
            ),
            lookup(old(self).field_types@, name@) matches Some(t0) ==> (res matches Ok(t) && same_type(t, t0)
                && *final(self) == *old(self)),
            lookup(old(self).field_types@, name@) is None && !builtin_type_name(name@) ==> (field_type_error(
                *old(self),
                files,
                name@,
            ) matches Some(e) ==> (res matches Err(m) && m@ == e)),
            lookup(old(self).field_types@, name@) is None && !builtin_type_name(name@) ==> (res matches Ok(t)
                ==> custom_ok(final(self).store@, final(self).field_to_type@, t, name@, files.field_type_lines(name@))),
            lookup(old(self).field_types@, name@) is None && !builtin_type_name(name@) ==> (res matches Ok(t)
                ==> lookup(final(self).field_types@, name@) matches Some(t1) && same_type(t, t1)),
            lookup(old(self).field_types@, name@) is None && builtin_type_name(name@) ==> res is Ok
                && *final(self) == *old(self),
            res matches Ok(t) ==> (!builtin_type_name(name@) && lookup(old(self).prior_types@, name@) is None
                ==> file_index(files.field_types@, name@) >= 0 && custom_ok(
                final(self).store@,
                final(self).field_to_type@,
                t,
                name@,
                files.field_type_lines(name@),
            )),
            forall|f: nat|
                #[trigger] type_compiles(files, types_of(old(self).field_to_type@), old(self).stack(), name@, f)
                    ==> res is Ok,
        decreases files.total() - old(self).open_count(), 3int,
    {
        proof {
            lemma_first_key(self.field_types@, name@);
        }
        match self.field_types.get(name) {
            Some(t) => {
                let d = t.duplicate();
                proof {
                    let i = first_key(self.field_types@, name@);
                    assert(self.field_types@[i] == (name@, *t));
                    if lookup(self.prior_types@, name@) is None {
                        assert(custom_ok(self.store@, self.field_to_type@, *t, name@, files.field_type_lines(name@)));
                    }
                }
                return Ok(d);
            },
            None => {},
        }
        match get_default_type(name.as_str()) {
            Some(t) => {
                return Ok(t);
            },
            None => {},
        }
        let ghost before = *self;
        match self.compile_field_type(name, files) {
            Ok(t) => {
                let ghost mid = *self;
                self.field_types.insert(name.clone(), t.duplicate());
                proof {
                    assert forall|i: int| 0 <= i < self.field_types@.len() implies {
                        let (n, ft) = #[trigger] self.field_types@[i];
                        &&& ft is Custom
                        &&& !builtin_type_name(n)
                        &&& ft.wf()
                        &&& all_below(ft.phrase_ids(), self.store@.len() as int)
                    } by {
                        if self.field_types@[i].0 != name@ {
                            let j = choose|j: int|
                                0 <= j < mid.field_types@.len() && mid.field_types@[j] == self.field_types@[i];
                            assert(mid.field_types@[j] == self.field_types@[i]);
                        }
                    }
                    lemma_cache_grow(mid, *self, files);
                    lemma_fields_grow(mid, *self, files);
                    assert forall|n: Seq<char>|
                        #[trigger] lookup(self.field_types@, n) is Some && lookup(self.prior_types@, n) is None implies {
                        &&& file_index(files.field_types@, n) >= 0
                        &&& custom_ok(
                            self.store@,
                            self.field_to_type@,
                            lookup(self.field_types@, n).unwrap(),
                            n,
                            files.field_type_lines(n),
                        )
                    } by {
                        if n != name@ {
                            assert(lookup(mid.field_types@, n) == lookup(self.field_types@, n));
                        }
                    }
                }
                Ok(t)
            },
            Err(e) => Err(e),
        }
    }

    /// Compiles the field type `name` from its file: each line gives a value (its
    /// first `:`-separated piece) and a group of the line's pieces that recognises it.
    fn compile_field_type(&mut self, name: &String, files: &ConfigFiles) -> (res: Result<FieldType, String>)
        requires
            old(self).wf(),
            old(self).compiling_ok(files),
            old(self).cache_ok(files),
            old(self).types_ok(files),
            old(self).fields_ok(files),
        ensures
            frame(*old(self), *final(self), files),
            res is Ok ==> same_stack(*old(self), *final(self)),
            res matches Ok(t) ==> t is Custom && t.wf() && all_below(t.phrase_ids(), final(self).store@.len() as int)
                && file_index(files.field_types@, name@) >= 0 && custom_ok(
                final(self).store@,
                final(self).field_to_type@,
                t,
                name@,
                files.field_type_lines(name@),
            ),
            field_type_error(*old(self), files, name@) matches Some(e) ==> (res matches Err(m) && m@ == e),
            forall|f: nat|
                !builtin_type_name(name@) && #[trigger] type_compiles(
                    files,
                    types_of(old(self).field_to_type@),
                    old(self).stack(),
                    name@,
                    f,
                ) ==> res is Ok,
            old(self).stack().contains("field_type:"@ + name@) || file_index(files.field_types@, name@) < 0 ==> *final(self)
                == *old(self),
            !old(self).stack().contains("field_type:"@ + name@) && file_index(files.field_types@, name@) >= 0
                && files.field_types@[file_index(files.field_types@, name@)].contents@.len() == 0 ==> final(self).stack()
                == old(self).stack().push("field_type:"@ + name@) && final(self).phrase_store() == old(self).phrase_store()
                && final(self).phrase_table() == old(self).phrase_table() && final(self).type_cache() == old(
                self,
            ).type_cache() && final(self).field_cache() == old(self).field_cache() && final(self).field_table()
                == old(self).field_table() && final(self).tree() == old(self).tree(),
        decreases files.total() - old(self).open_count(), 1int,
    {
        let mut key = String::from_str("field_type:");
        key.append(name.as_str());
        if self.is_compiling(&key) {
            return Err(concat3("Cannot compile '", name.as_str(), "' because it is already compiling"));
        }
        let path = self.path_of("field_types", name);
        let idx = match find_file(&files.field_types, name) {
            Some(i) => i,
            None => {
                return Err(concat3("Could not open '", path.as_str(), "'"));
            },
        };
        let ghost before = *self;
        self.push_compiling(key.clone(), Ghost(files.phrases@.len() + idx), files);
        let mut custom = Custom::new();
        let contents = &files.field_types[idx].contents;
        if contents.as_str().is_empty() {
            return Err(concat3("Could not read '", path.as_str(), "'"));
        }
        let lines = split(contents.as_str(), '\n');
        let ghost pushed = *self;
        let ghost ls = views(lines@);
        proof {
            reveal(lines_valued);
            assert(frame(before, pushed, files));
            assert(field_type_error(before, files, name@) is None);
            assert(pushed.stack() =~= before.stack().push(key@));
        }
        let mut i: usize = 0;
        while i < lines.len()
            invariant
                i <= lines@.len(),
                ls == views(lines@),
                ls == files.field_type_lines(name@),
                before == *old(self),
                field_type_error(before, files, name@) is None,
                file_index(files.field_types@, name@) >= 0,
                frame(before, *self, files),
                same_stack(pushed, *self),
                pushed.open_count() == before.open_count() + 1,
                pushed.compiling@ == before.compiling@.push(key),
                pushed.stack() == before.stack().push(key@),
                key@ == "field_type:"@ + name@,
                idx == file_index(files.field_types@, name@),
                pushed.open_sources@ == before.open_sources@.push(files.phrases@.len() + idx),
                custom.wf(),
                forall|j: int| 0 <= j < custom@.len() ==> (#[trigger] custom@[j]).1 < self.store@.len(),
                custom_upto(self.store@, self.field_to_type@, name@, ls, i as int, custom@),
            decreases lines.len() - i,
        {
            let pieces = split(lines[i].as_str(), ':');
            proof {
                lemma_split_nonempty(lines@[i as int]@, ':');
                assert(ls[i as int] == lines@[i as int]@);
            }
            let ghost prev = *self;
            let ghost prev_custom = custom@;
            let id = match self.compile(&pieces, name, files) {
                Ok(id) => id,
                Err(e) => {
                    proof {
                        lemma_frame_trans(before, prev, *self, files);
                        assert(prev.stack() == pushed.stack());
                        assert(views(pieces@) == split_seq(ls[i as int], ':'));
                        assert forall|f: nat|
                            !builtin_type_name(name@) implies !#[trigger] type_compiles(
                            files,
                            types_of(before.field_to_type@),
                            before.stack(),
                            name@,
                            f,
                        ) by {
                            if type_compiles(files, types_of(before.field_to_type@), before.stack(), name@, f) {
                                assert(lines_compile(
                                    files,
                                    types_of(before.field_to_type@),
                                    before.stack().push(key@),
                                    split_seq(ls[i as int], ':'),
                                    (f - 1) as nat,
                                ));
                            }
                        }
                    }
                    return Err(e);
                },
            };
            proof {
                lemma_frame_trans(before, prev, *self, files);
                assert(views(pieces@)[0] == pieces@[0]@);
                assert(views(pieces@) == split_seq(ls[i as int], ':'));
            }
            let value = pieces[0].clone();
            custom.insert_synonym(value, id);
            proof {
                lemma_custom_step(
                    prev.store@,
                    self.store@,
                    self.field_to_type@,
                    name@,
                    ls,
                    i as int,
                    prev_custom,
                    custom@,
                    id,
                );
            }
            i = i + 1;
        }
        proof {
            assert forall|j: int| 0 <= j < FieldType::Custom(custom).phrase_ids().len() implies #[trigger] FieldType::Custom(
                custom,
            ).phrase_ids()[j] < self.store@.len() by {
                assert(FieldType::Custom(custom).phrase_ids()[j] == custom@[j].1);
            }
        }
        proof {
            assert(self.stack() == pushed.stack());
            assert(self.stack().last() == key@);
        }
        if !self.pop_compiling(&key, Ghost(files)) {
            return Err(concat3("Cannot remove '", name.as_str(), "' as it is not last in compiling list"));
        }
        proof {
            assert(self.compiling@ =~= before.compiling@);
            assert(self.open_sources@ =~= before.open_sources@);
        }
        Ok(FieldType::Custom(custom))
    }
    /// Adds the lines of the task files to the tree, each as a path to its task.
    fn compile_nodes(&mut self, files: &ConfigFiles) -> (res: Result<bool, String>)
        requires
            old(self).wf(),
            old(self).compiling_ok(files),
            old(self).cache_ok(files),
            old(self).types_ok(files),
            old(self).fields_ok(files),
        ensures
            final(self).wf(),
            final(self).compiling_ok(files),
            final(self).field_to_type@ == old(self).field_to_type@,
            extends(old(self).store@, final(self).store@),
            final(self).cache_ok(files),
            final(self).types_ok(files),
            final(self).fields_ok(files),
            final(self).prior == old(self).prior,
            final(self).prior_types == old(self).prior_types,
            final(self).prior_fields == old(self).prior_fields,
            forall|n: Seq<char>| #[trigger]
                lookup(old(self).phrases@, n) is Some ==> lookup(final(self).phrases@, n) == lookup(old(self).phrases@, n),
            res is Ok ==> res == Ok::<bool, String>(true) && tasks_added(*final(self), files, files.tasks@.len() as int),
            res is Ok ==> lines_built(*final(self), old(self).tree(), final(self).tree(), task_lines(files.tasks@)),
            forall|f: nat|
                #[trigger] tasks_compile(files, types_of(old(self).field_to_type@), old(self).stack(), f) ==> (res is Ok || (
                res matches Err(m) && exists|a: Seq<char>, b: Seq<char>| m@ == same_input_message(a, b))),
            res matches Err(m) ==> tasks_stopped(
                *final(self),
                files,
                types_of(old(self).field_to_type@),
                old(self).stack(),
                old(self).tree(),
                task_lines(files.tasks@),
                m@,
            ),
    {
        let ghost start = *self;
        let ghost mut done: Seq<(Seq<char>, Seq<char>)> = Seq::empty();
        let ghost mut adds: Seq<Seq<usize>> = Seq::empty();
        let ghost mut trees: Seq<Seq<Node>> = seq![self.tree()];
        proof {
            assert(files.tasks@.take(0) =~= Seq::<ConfigFile>::empty());
        }
        let mut j: usize = 0;
        while j < files.tasks.len()
            invariant
                j <= files.tasks@.len(),
                start == *old(self),
                self.compiling@ == start.compiling@,
                self.wf(),
                self.compiling_ok(files),
                self.cache_ok(files),
                self.types_ok(files),
                self.fields_ok(files),
                self.prior == start.prior,
                self.prior_types == start.prior_types,
                self.prior_fields == start.prior_fields,
                self.field_to_type@ == start.field_to_type@,
                extends(start.store@, self.store@),
                forall|n: Seq<char>| #[trigger]
                    lookup(start.phrases@, n) is Some ==> lookup(self.phrases@, n) == lookup(start.phrases@, n),
                tasks_added(*self, files, j as int),
                done == task_lines(files.tasks@.take(j as int)),
                adds.len() == done.len(),
                trees.len() == done.len() + 1,
                trees[0] == start.tree(),
                trees[done.len() as int] == self.tree(),
                forall|i: int| 0 <= i < done.len() ==> #[trigger] build_step(*self, done, adds, trees, i),
            decreases files.tasks.len() - j,
        {
            let ghost done_j = done;
            let task = &files.tasks[j];
            let lines = split(task.contents.as_str(), '\n');
            let ghost ls = views(lines@);
            proof {
                lemma_split_nonempty(task.contents@, '\n');
                assert(ls == file_lines(files.tasks@[j as int]));
            }
            let ghost task_start = *self;
            if lines.len() > 0 && !lines[0].as_str().is_empty() {
                proof {
                    assert(ls[0] == lines@[0]@);
                    assert(named_lines(ls.take(0), task.name@) =~= Seq::<(Seq<char>, Seq<char>)>::empty());
                    assert(done =~= done_j + named_lines(ls.take(0), task.name@));
                }
                let mut k: usize = 0;
                while k < lines.len()
                    invariant
                        k <= lines@.len(),
                        j < files.tasks@.len(),
                        start == *old(self),
                        self.compiling@ == start.compiling@,
                        ls[0].len() > 0,
                        task == &files.tasks@[j as int],
                        ls == views(lines@),
                        ls == file_lines(files.tasks@[j as int]),
                        self.wf(),
                        self.compiling_ok(files),
                        self.cache_ok(files),
                        self.types_ok(files),
                        self.fields_ok(files),
                        self.prior == start.prior,
                        self.prior_types == start.prior_types,
                        self.prior_fields == start.prior_fields,
                        self.field_to_type@ == start.field_to_type@,
                        extends(start.store@, self.store@),
                        forall|n: Seq<char>| #[trigger]
                            lookup(start.phrases@, n) is Some ==> lookup(self.phrases@, n) == lookup(start.phrases@, n),
                        tasks_added(*self, files, j as int),
                        task.name@.len() > 0 ==> forall|k2: int| 0 <= k2 < k ==> #[trigger] line_added(*self, ls[k2], task.name@),
                        done_j == task_lines(files.tasks@.take(j as int)),
                        done == done_j + named_lines(ls.take(k as int), task.name@),
                        adds.len() == done.len(),
                        trees.len() == done.len() + 1,
                        trees[0] == start.tree(),
                        trees[done.len() as int] == self.tree(),
                        forall|i: int| 0 <= i < done.len() ==> #[trigger] build_step(*self, done, adds, trees, i),
                    decreases lines.len() - k,
                {
                    let ghost before = *self;
                    let ids = match self.compile_line(&lines[k], files) {
                        Ok(ids) => ids,
                        Err(e) => {
                            proof {
                                assert(ls[k as int] == lines@[k as int]@);
                                assert(before.stack() == start.stack());
                                assert forall|f: nat|
                                    !#[trigger] tasks_compile(files, types_of(start.field_to_type@), start.stack(), f) by {
                                    if tasks_compile(files, types_of(start.field_to_type@), start.stack(), f) {
                                        assert(line_compiles(
                                            files,
                                            types_of(start.field_to_type@),
                                            start.stack(),
                                            file_lines(files.tasks@[j as int])[k as int],
                                            f,
                                        ));
                                    }
                                }
                                assert(line_fails(
                                    files,
                                    types_of(start.field_to_type@),
                                    start.stack(),
                                    file_lines(files.tasks@[j as int])[k as int],
                                ));
                                lemma_build_frame(before, *self, files, done, adds, trees, done.len() as int);
                                lemma_same_forest_refl(self.tree());
                                assert(build_steps(*self, start.tree(), self.tree(), done, adds, trees));
                                lemma_line_index(files.tasks@, j as int, k as int, done);
                                let full = task_lines(files.tasks@);
                                assert(full.take(done.len() as int) == done);
                                assert(lines_built(*self, start.tree(), self.tree(), full.take(done.len() as int)));
                                assert(full[done.len() as int].0 == ls[k as int]);
                                assert(tasks_stopped(
                                    *self,
                                    files,
                                    types_of(start.field_to_type@),
                                    start.stack(),
                                    start.tree(),
                                    full,
                                    e@,
                                ));
                            }
                            return Err(e);
                        },
                    };
                    proof {
                        assert(ls[k as int] == lines@[k as int]@);
                        assert forall|t: int, k2: int|
                            0 <= t < j && task_used(files.tasks@[t]) && files.tasks@[t].name@.len() > 0 && 0 <= k2
                                < file_lines(files.tasks@[t]).len() implies #[trigger] line_added(
                            *self,
                            file_lines(files.tasks@[t])[k2],
                            files.tasks@[t].name@,
                        ) by {
                            lemma_line_added_frame(before, *self, files, file_lines(files.tasks@[t])[k2], files.tasks@[t].name@);
                        }
                        if task.name@.len() > 0 {
                            assert forall|k2: int| 0 <= k2 < k implies #[trigger] line_added(*self, ls[k2], task.name@) by {
                                lemma_line_added_frame(before, *self, files, ls[k2], task.name@);
                            }
                        }
                        assert forall|n: Seq<char>| #[trigger] lookup(start.phrases@, n) is Some implies lookup(
                            self.phrases@,
                            n,
                        ) == lookup(start.phrases@, n) by {
                            assert(lookup(before.phrases@, n) is Some);
                        }
                        assert(segments(lines@[k as int]@).len() > 0);
                        assert(all_ids_below(ids@, self.store@.len() as int)) by {
                            assert forall|m: int| 0 <= m < ids@.len() implies #[trigger] ids@[m] < self.store@.len() by {
                                assert(segment_ok(self.store@, self.field_to_type@, ids@[m], segments(lines@[k as int]@)[m]));
                            }
                        }
                    }
                    let ghost mid = *self;
                    match self.base_node.add_nodes(ids.as_slice(), &task.name) {
                        Ok(_) => {},
                        Err(e) => {
                            proof {
                                assert(ids@.len() > 0);
                                let a = task_at(mid.base_node.children(), ids@).unwrap();
                                assert(e@ == same_input_message(a, task.name@));
                                assert(task_at(self.tree(), ids@) == task_at(mid.tree(), ids@));
                                assert(line_conflicts(*self, ls[k as int], task.name@, e@));
                                assert(ls[k as int] == file_lines(files.tasks@[j as int])[k as int]);
                                lemma_build_frame(before, mid, files, done, adds, trees, done.len() as int);
                                lemma_build_same(mid, *self, done, adds, trees, done.len() as int);
                                assert(same_forest(self.tree(), trees[done.len() as int]));
                                assert(build_steps(*self, start.tree(), self.tree(), done, adds, trees));
                                lemma_line_index(files.tasks@, j as int, k as int, done);
                                let full = task_lines(files.tasks@);
                                assert(full.take(done.len() as int) == done);
                                assert(lines_built(*self, start.tree(), self.tree(), full.take(done.len() as int)));
                                assert(full[done.len() as int] == (ls[k as int], task.name@));
                                assert(tasks_stopped(
                                    *self,
                                    files,
                                    types_of(start.field_to_type@),
                                    start.stack(),
                                    start.tree(),
                                    full,
                                    e@,
                                ));
                            }
                            return Err(e);
                        },
                    }
                    proof {
                        assert(self.store == mid.store);
                        lemma_cache_grow(mid, *self, files);
                        lemma_types_grow(mid, *self, files);
                        lemma_fields_grow(mid, *self, files);
                        assert forall|t: int, k2: int|
                            0 <= t < j && task_used(files.tasks@[t]) && files.tasks@[t].name@.len() > 0 && 0 <= k2
                                < file_lines(files.tasks@[t]).len() implies #[trigger] line_added(
                            *self,
                            file_lines(files.tasks@[t])[k2],
                            files.tasks@[t].name@,
                        ) by {
                            lemma_line_added_tree(mid, *self, file_lines(files.tasks@[t])[k2], files.tasks@[t].name@, ids@, task.name@);
                        }
                        if task.name@.len() > 0 {
                            assert forall|k2: int| 0 <= k2 < k + 1 implies #[trigger] line_added(*self, ls[k2], task.name@) by {
                                if k2 < k {
                                    lemma_line_added_tree(mid, *self, ls[k2], task.name@, ids@, task.name@);
                                } else {
                                    assert(ref_cached(mid, ids@[0], segments(ls[k2])[0]) ==> ref_cached(*self, ids@[0], segments(ls[k2])[0]));
                                    assert forall|m: int| 0 <= m < ids@.len() implies #[trigger] ref_cached(
                                        *self,
                                        ids@[m],
                                        segments(ls[k2])[m],
                                    ) by {
                                        assert(ref_cached(mid, ids@[m], segments(ls[k2])[m]));
                                    }
                                    assert(task_at(self.tree(), ids@) == Some(task.name@));
                                }
                            }
                        }
                        lemma_build_frame(before, mid, files, done, adds, trees, done.len() as int);
                        lemma_build_same(mid, *self, done, adds, trees, done.len() as int);
                        assert forall|m: int| 0 <= m < ids@.len() implies #[trigger] ref_cached(
                            *self,
                            ids@[m],
                            segments(ls[k as int])[m],
                        ) by {
                            assert(ref_cached(mid, ids@[m], segments(ls[k as int])[m]));
                        }
                        lemma_build_push(*self, done, adds, trees, (ls[k as int], task.name@), ids@, self.tree());
                        assert(named_lines(ls.take(k + 1), task.name@) =~= named_lines(ls.take(k as int), task.name@).push(
                            (ls[k as int], task.name@),
                        ));
                        assert(done.push((ls[k as int], task.name@)) =~= done_j + named_lines(ls.take(k + 1), task.name@));
                    }
                    proof {
                        done = done.push((ls[k as int], task.name@));
                        adds = adds.push(ids@);
                        trees = trees.push(self.tree());
                    }
                    k = k + 1;
                }
            }
            proof {
                assert forall|t: int, k2: int|
                    0 <= t < j + 1 && task_used(files.tasks@[t]) && files.tasks@[t].name@.len() > 0 && 0 <= k2 < file_lines(
                        files.tasks@[t],
                    ).len() implies #[trigger] line_added(*self, file_lines(files.tasks@[t])[k2], files.tasks@[t].name@) by {
                    if t == j {
                        assert(ls[k2] == file_lines(files.tasks@[t])[k2]);
                    }
                }
                lemma_task_lines_step(files.tasks@, j as int);
                if task_used(files.tasks@[j as int]) {
                    assert(ls.take(ls.len() as int) =~= ls);
                    assert(done == task_lines(files.tasks@.take(j + 1)));
                } else {
                    assert(done =~= task_lines(files.tasks@.take(j + 1)));
                }
            }
            j = j + 1;
        }
        proof {
            assert(files.tasks@.take(j as int) =~= files.tasks@);
            lemma_same_forest_refl(self.tree());
            assert(build_steps(*self, start.tree(), self.tree(), done, adds, trees));
        }
        Ok(true)
    }
}

impl Processor {
    /// Compiles the configuration `files`: first the field table from
    /// `field_types.var` (one `field:type` per line), then every phrase file, then the
    /// task files into the tree.  A configuration whose field table parses and whose
    /// phrases and task lines all compile (`config_compiles`) is accepted, unless two
    /// task lines lead to different tasks along the same phrases.
    pub fn init(&mut self, files: &ConfigFiles) -> (res: Result<bool, String>)
        requires
            old(self).wf(),
        ensures
            final(self).wf(),
            (exists|k: int|
                0 <= k < split_seq(files.field_types_var@, '\n').len() && #[trigger] split_seq(
                    split_seq(files.field_types_var@, '\n')[k],
                    ':',
                ).len() != 2) ==> (res matches Err(m) && m@ == invalid_field_message()),
            res is Ok ==> res == Ok::<bool, String>(true),
            fields_parse(files.field_types_var@) ==> forall|n: Seq<char>| #[trigger]
                field_type_name(final(self).field_table(), n) == field_entry(
                    old(self).field_table(),
                    split_seq(files.field_types_var@, '\n'),
                    split_seq(files.field_types_var@, '\n').len() as int,
                    n,
                ),
            forall|f: nat|
                fields_parse(files.field_types_var@) && #[trigger] config_compiles(
                    files,
                    parsed_types(old(self).field_table(), files.field_types_var@),
                    old(self).stack(),
                    f,
                ) ==> (res is Ok || (res matches Err(m) && exists|a: Seq<char>, b: Seq<char>| m@ == same_input_message(a, b))),
            !fields_parse(files.field_types_var@) ==> final(self).phrase_store() == old(self).phrase_store()
                && final(self).phrase_table() == old(self).phrase_table() && final(self).type_cache() == old(
                self,
            ).type_cache() && final(self).field_cache() == old(self).field_cache() && final(self).tree() == old(
                self,
            ).tree() && final(self).stack() == old(self).stack(),
            res matches Err(m) ==> !fields_parse(files.field_types_var@) || (exists|i: int|
                0 <= i < files.phrases@.len() && #[trigger] phrase_fails(
                    files,
                    parsed_types(old(self).field_table(), files.field_types_var@),
                    old(self).stack(),
                    files.phrases@[i].name@,
                )) || tasks_stopped(
                *final(self),
                files,
                parsed_types(old(self).field_table(), files.field_types_var@),
                old(self).stack(),
                old(self).tree(),
                task_lines(files.tasks@),
                m@,
            ),
            res is Ok ==> forall|i: int|
                0 <= i < files.phrases@.len() ==> (lookup(final(self).phrase_table(), #[trigger] files.phrases@[i].name@) matches Some(id)
                    && id < final(self).phrase_store().len() && final(self).phrase_store()[id as int] is Group
                    && final(self).phrase_store()[id as int].name_view() == files.phrases@[i].name@),
            res is Ok ==> forall|i: int|
                0 <= i < files.phrases@.len() && lookup(old(self).phrase_table(), #[trigger] files.phrases@[i].name@) is None
                    ==> group_ok(
                    final(self).phrase_store(),
                    final(self).field_table(),
                    lookup(final(self).phrase_table(), files.phrases@[i].name@).unwrap(),
                    files.phrases@[i].name@,
                    files.phrase_lines(files.phrases@[i].name@),
                ),
            res is Ok ==> forall|n: Seq<char>|
                #[trigger] lookup(final(self).field_cache(), n) is Some && lookup(old(self).field_cache(), n) is None
                    ==> field_made_ok(
                    final(self).phrase_store(),
                    final(self).field_table(),
                    old(self).type_cache(),
                    files,
                    lookup(final(self).field_cache(), n).unwrap(),
                    n,
                ),
            res is Ok ==> tasks_added(*final(self), files, files.tasks@.len() as int),
            res is Ok ==> lines_built(*final(self), old(self).tree(), final(self).tree(), task_lines(files.tasks@)),
    {
        self.open_sources = Ghost(Seq::empty());
        self.prior = Ghost(self.phrases@);
        self.prior_types = Ghost(self.field_types@);
        self.prior_fields = Ghost(self.fields@);
        let var_lines = split(files.field_types_var.as_str(), '\n');
        let ghost vl = views(var_lines@);
        let ghost start_ftt = self.field_to_type@;
        let mut i: usize = 0;
        while i < var_lines.len()
            invariant
                i <= var_lines@.len(),
                vl == views(var_lines@),
                vl == split_seq(files.field_types_var@, '\n'),
                start_ftt == old(self).field_to_type@,
                self.wf(),
                self.compiling@ == old(self).compiling@,
                self.open_sources@.len() == 0,
                self.prior@ == self.phrases@,
                self.phrases@ == old(self).phrases@,
                self.prior_types@ == self.field_types@,
                self.field_types@ == old(self).field_types@,
                self.prior_fields@ == self.fields@,
                self.fields@ == old(self).fields@,
                self.store == old(self).store,
                self.base_node == old(self).base_node,
                forall|k: int| 0 <= k < i ==> #[trigger] split_seq(vl[k], ':').len() == 2,
                forall|n: Seq<char>| #[trigger] field_type_name(self.field_to_type@, n) == field_entry(start_ftt, vl, i as int, n),
            decreases var_lines.len() - i,
        {
            let pair = split(var_lines[i].as_str(), ':');
            proof {
                assert(vl[i as int] == var_lines@[i as int]@);
            }
            if pair.len() != 2 {
                proof {
                    assert(views(pair@).len() == pair@.len());
                    assert(split_seq(vl[i as int], ':').len() != 2);
                    assert(!fields_parse(files.field_types_var@));
                }
                return Err(String::from_str("Invalid definition of field in 'field_types.var' file"));
            }
            let ghost prev = self.field_to_type@;
            proof {
                assert(views(pair@)[0] == pair@[0]@);
                assert(views(pair@)[1] == pair@[1]@);
            }
            self.field_to_type.insert(pair[0].clone(), pair[1].clone());
            proof {
                assert forall|n: Seq<char>| #[trigger] field_type_name(self.field_to_type@, n) == field_entry(
                    start_ftt,
                    vl,
                    i + 1,
                    n,
                ) by {
                    if n != pair@[0]@ {
                        assert(field_type_name(prev, n) == field_entry(start_ftt, vl, i as int, n));
                    }
                }
            }
            i = i + 1;
        }
        let ghost parsed = *self;
        proof {
            assert(types_of(self.field_to_type@) =~= parsed_types(old(self).field_table(), files.field_types_var@));
            assert(self.compiling_ok(files));
            assert(self.cache_ok(files));
            assert(self.types_ok(files));
            assert(self.fields_ok(files));
        }
        let mut i: usize = 0;
        while i < files.phrases.len()
            invariant
                i <= files.phrases@.len(),
                self.wf(),
                self.compiling_ok(files),
                self.cache_ok(files),
                self.types_ok(files),
                self.fields_ok(files),
                self.prior@ == old(self).phrases@,
                self.prior_types@ == old(self).field_types@,
                self.prior_fields@ == old(self).fields@,
                self.field_to_type@ == parsed.field_to_type@,
                types_of(parsed.field_to_type@) == parsed_types(old(self).field_table(), files.field_types_var@),
                self.compiling@ == old(self).compiling@,
                forall|n: Seq<char>| #[trigger]
                    field_type_name(self.field_to_type@, n) == field_entry(old(self).field_table(), vl, vl.len() as int, n),
                vl == split_seq(files.field_types_var@, '\n'),
                forall|k: int| 0 <= k < vl.len() ==> #[trigger] split_seq(vl[k], ':').len() == 2,
                forall|i2: int|
                    0 <= i2 < i ==> #[trigger] lookup(self.phrases@, files.phrases@[i2].name@) is Some,
                self.tree() == old(self).tree(),
            decreases files.phrases.len() - i,
        {
            let ghost before = *self;
            match self.get_phrase(&files.phrases[i].name, files) {
                Ok(_) => {},
                Err(e) => {
                    proof {
                        assert(before.stack() == old(self).stack());
                        assert forall|f: nat|
                            !#[trigger] config_compiles(
                                files,
                                parsed_types(old(self).field_table(), files.field_types_var@),
                                old(self).stack(),
                                f,
                            ) by {
                            if config_compiles(
                                files,
                                parsed_types(old(self).field_table(), files.field_types_var@),
                                old(self).stack(),
                                f,
                            ) {
                                assert(phrase_compiles(
                                    files,
                                    types_of(before.field_to_type@),
                                    before.stack(),
                                    files.phrases@[i as int].name@,
                                    f,
                                ));
                            }
                        }
                        assert(phrase_fails(
                            files,
                            parsed_types(old(self).field_table(), files.field_types_var@),
                            old(self).stack(),
                            files.phrases@[i as int].name@,
                        ));
                    }
                    return Err(e);
                },
            }
            proof {
                assert forall|i2: int| 0 <= i2 < i + 1 implies #[trigger] lookup(self.phrases@, files.phrases@[i2].name@)
                    is Some by {
                    if i2 < i {
                        assert(lookup(before.phrases@, files.phrases@[i2].name@) is Some);
                    }
                }
            }
            i = i + 1;
        }
        let ghost compiled = *self;
        proof {
            assert(compiled.stack() == old(self).stack());
        }
        match self.compile_nodes(files) {
            Ok(_) => {},
            Err(e) => {
                proof {
                    assert forall|f: nat|
                        config_compiles(
                            files,
                            parsed_types(old(self).field_table(), files.field_types_var@),
                            old(self).stack(),
                            f,
                        ) implies #[trigger] tasks_compile(files, types_of(compiled.field_to_type@), compiled.stack(), f) by {
                    }
                }
                return Err(e);
            },
        }
        proof {
            assert forall|i2: int| 0 <= i2 < files.phrases@.len() implies (lookup(
                self.phrase_table(),
                #[trigger] files.phrases@[i2].name@,
            ) matches Some(id) && id < self.phrase_store().len() && self.phrase_store()[id as int] is Group
                && self.phrase_store()[id as int].name_view() == files.phrases@[i2].name@) by {
                let n = files.phrases@[i2].name@;
                assert(lookup(compiled.phrases@, n) is Some);
                lemma_first_key(self.phrases@, n);
                let k = first_key(self.phrases@, n);
                assert(self.phrases@[k].0 == n);
            }
        }
        Ok(true)
    }

    /// A readable picture of the node tree.
    pub fn get_dump_string(&self) -> (res: String)
        requires
            self.wf(),
        ensures
            res@ == base_dump(self.phrase_store(), self.tree()),
    {
        self.base_node.get_dump_string(&self.store)
    }

    /// Matches the words of `input` (split at single spaces) against the tasks.
    pub fn process(&self, input: &str) -> (res: NodeResult)
        requires
            self.wf(),
            base_outcome(self.phrase_store(), self.tree(), split_seq(input@, ' ')) is Some,
        ensures
            res.wf(),
            base_outcome(self.phrase_store(), self.tree(), split_seq(input@, ' ')) == Some(res@),
            res@.length <= split_seq(input@, ' ').len(),
    {
        let words = split(input, ' ');
        self.base_node.input(&self.store, words.as_slice())
    }

    /// The same as `process`; `None` exactly where matching would slice past the end
    /// of the words, where `process` cannot be called.
    pub fn try_process(&self, input: &str) -> (res: Option<NodeResult>)
        requires
            self.wf(),
        ensures
            node_result_is(res, base_outcome(self.phrase_store(), self.tree(), split_seq(input@, ' ')), split_seq(input@, ' ').len()),
    {
        let words = split(input, ' ');
        self.base_node.try_input(&self.store, words.as_slice())
    }
}

} // verus!
