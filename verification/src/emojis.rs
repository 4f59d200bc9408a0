//! The alphabet of one version: 1024 symbols, their reverse index and the
//! five padding scalars.

use vstd::prelude::*;

verus! {

/// `phf::Map`, the immutable perfect-hash map that holds a reverse index.
/// Nothing inside it is visible to the verifier.
#[verifier::external_type_specification]
#[verifier::external_body]
#[verifier::reject_recursive_types(K)]
#[verifier::reject_recursive_types(V)]
pub struct ExPhfMap<K: 'static, V: 'static>(phf::Map<K, V>);

/// The pairs that a lookup in the map finds: each scalar for which
/// `phf::Map::get` answers, with the answer.
pub uninterp spec fn reverse_entries(m: phf::Map<char, usize>) -> Map<char, usize>;

/// The number of slots in the map's table, which is what `phf::Map::len`
/// reports.
pub uninterp spec fn entry_count(m: phf::Map<char, usize>) -> nat;

/// The number of slots in the map's table of displacements, by which a
/// lookup finds the slot of a key.
pub uninterp spec fn bucket_count(m: phf::Map<char, usize>) -> nat;

/// Whether the map can be searched. A lookup reduces a hash modulo the length
/// of each of the two tables, taken as a `u32`, so neither length may turn
/// into zero by that. An empty table of displacements is answered before any
/// division.
pub open spec fn searchable(m: phf::Map<char, usize>) -> bool {
    0 < entry_count(m) <= u32::MAX && bucket_count(m) <= u32::MAX
}

/// The length of the table of displacements, which `phf::Map` keeps in its
/// field `disps`.
#[verifier::external_body]
fn reverse_buckets(m: &phf::Map<char, usize>) -> (n: usize)
    ensures
        n == bucket_count(*m),
{
    m.disps.len()
}

/// `phf::Map::len`. It returns the length of the entry table. A lookup only
/// ever answers for a key that it found in that table, so the keys that can
/// be found are among the keys of those entries.
#[verifier::external_body]
fn reverse_len(m: &phf::Map<char, usize>) -> (n: usize)
    ensures
        n == entry_count(*m),
        exists|keys: Seq<char>|
            #[trigger] keys.len() == n && forall|c: char| #[trigger]
                reverse_entries(*m).contains_key(c) ==> keys.contains(c),
{
    m.len()
}

/// `phf::Map::get`, with the value copied out of the reference.
#[verifier::external_body]
fn reverse_get(m: &phf::Map<char, usize>, c: char) -> (r: Option<usize>)
    requires
        searchable(*m),
    ensures
        r == if reverse_entries(*m).contains_key(c) {
            Some(reverse_entries(*m)[c])
        } else {
            None::<usize>
        },
{
    m.get(&c).copied()
}

/// `phf::Map::contains_key`, which is true exactly when `get` answers.
#[verifier::external_body]
fn reverse_contains_key(m: &phf::Map<char, usize>, c: char) -> (b: bool)
    requires
        searchable(*m),
    ensures
        b == reverse_entries(*m).contains_key(c),
{
    m.contains_key(&c)
}

/// `phf_generator::generate_hash`, with what it returns put together to a
/// `phf::Map` that lives as long as the process: the hash key, the table of
/// displacements, and each symbol with its index at the slot that the
/// generator gave it. Nothing is claimed of the map, of which
/// [`Version::is_well_formed`] looks at every symbol. The generator tries hash
/// keys until one of them fits, and none fits a symbol that occurs twice.
#[verifier::external_body]
fn build_reverse(symbols: &[char; 1024]) -> (m: phf::Map<char, usize>)
    requires
        symbols@.no_duplicates(),
{
    let state = phf_generator::generate_hash(symbols);
    let entries: Vec<(char, usize)> = state.map.iter().map(|&i| (symbols[i], i)).collect();
    phf::Map { key: state.key, disps: state.disps.leak(), entries: entries.leak() }
}

/// Tells whether no symbol occurs twice in the table.
fn all_different(symbols: &[char; 1024]) -> (ok: bool)
    ensures
        ok == symbols@.no_duplicates(),
{
    let mut i: usize = 1;
    while i < 1024
        invariant
            1 <= i <= 1024,
            forall|a: int, b: int| 0 <= b < a < i ==> symbols@[a] != symbols@[b],
        decreases 1024 - i,
    {
        let mut j: usize = 0;
        while j < i
            invariant
                0 <= j <= i < 1024,
                forall|b: int| 0 <= b < j ==> symbols@[i as int] != symbols@[b],
            decreases i - j,
        {
            if symbols[i] == symbols[j] {
                return false;
            }
            j += 1;
        }
        i += 1;
    }
    assert forall|a: int, b: int|
        0 <= a < symbols@.len() && 0 <= b < symbols@.len() && a != b implies symbols@[a]
        != symbols@[b] by {
        if a < b {
            assert(symbols@[b] != symbols@[a]);
        }
    }
    true
}

/// A map all of whose keys occur in a sequence is finite and has no more keys
/// than the sequence has places.
proof fn lemma_keys_bound(m: Map<char, usize>, keys: Seq<char>)
    requires
        forall|c: char| #[trigger] m.contains_key(c) ==> keys.contains(c),
    ensures
        m.dom().finite(),
        m.dom().len() <= keys.len(),
{
    vstd::seq_lib::seq_to_set_is_finite(keys);
    keys.lemma_cardinality_of_set();
    assert(m.dom().subset_of(keys.to_set()));
    vstd::set_lib::lemma_set_subset_finite(keys.to_set(), m.dom());
    vstd::set_lib::lemma_len_subset(m.dom(), keys.to_set());
}

/// One version of the alphabet.
#[allow(non_snake_case)]
pub struct Version {
    /// The tag of the version, 1 or 2. Version 2 leaves out the padding that
    /// would follow the first padding scalar of a group.
    pub VERSION_NUMBER: usize,
    /// The padding scalar that stands for "no data at this place".
    pub PADDING: char,
    /// Closes a group of four bytes whose last byte ends in the bits `00`.
    pub PADDING_40: char,
    /// Closes a group of four bytes whose last byte ends in the bits `01`.
    pub PADDING_41: char,
    /// Closes a group of four bytes whose last byte ends in the bits `10`.
    pub PADDING_42: char,
    /// Closes a group of four bytes whose last byte ends in the bits `11`.
    pub PADDING_43: char,
    /// The symbol of each 10-bit value.
    pub EMOJIS: [char; 1024],
    /// The 10-bit value of each symbol.
    pub EMOJIS_REV: phf::Map<char, usize>,
}

impl Version {
    /// The symbols in the order of their values.
    pub open spec fn symbols(&self) -> Seq<char> {
        self.EMOJIS@
    }

    /// The reverse index as a mathematical map.
    pub open spec fn reverse(&self) -> Map<char, usize> {
        reverse_entries(self.EMOJIS_REV)
    }

    /// The five padding scalars: the plain one, then the four numbered ones.
    pub open spec fn paddings(&self) -> Seq<char> {
        seq![self.PADDING, self.PADDING_40, self.PADDING_41, self.PADDING_42, self.PADDING_43]
    }

    /// The alphabet is consistent: the 1024 symbols and the 5 padding scalars
    /// are 1029 different scalars, and the reverse index is the exact inverse
    /// of the symbol table.
    pub open spec fn wf(&self) -> bool {
        &&& self.VERSION_NUMBER == 1 || self.VERSION_NUMBER == 2
        &&& entry_count(self.EMOJIS_REV) == 1024
        &&& searchable(self.EMOJIS_REV)
        &&& self.symbols().no_duplicates()
        &&& self.reverse().dom() == self.symbols().to_set()
        &&& forall|i: int| 0 <= i < 1024 ==> #[trigger] self.reverse()[self.symbols()[i]] == i
        &&& self.paddings().no_duplicates()
        &&& forall|i: int| 0 <= i < 5 ==> !self.symbols().contains(#[trigger] self.paddings()[i])
    }

    /// Whether `c` is one of the five padding scalars.
    pub open spec fn is_padding_spec(&self, c: char) -> bool {
        c == self.PADDING || c == self.PADDING_40 || c == self.PADDING_41 || c == self.PADDING_42
            || c == self.PADDING_43
    }

    /// Whether `c` belongs to the alphabet, as a symbol or as padding.
    pub open spec fn accepts(&self, c: char) -> bool {
        self.is_padding_spec(c) || self.reverse().contains_key(c)
    }

    /// The 10-bit value of `c`, if `c` is a symbol.
    pub open spec fn index_of_spec(&self, c: char) -> Option<usize> {
        if self.reverse().contains_key(c) {
            Some(self.reverse()[c])
        } else {
            None
        }
    }

    /// Makes the alphabet of a version out of its tables, with a reverse index
    /// that `phf_generator` builds for the symbols. Tables that are no alphabet
    /// give `None`, and so does a symbol that occurs twice, before anything is
    /// built. What is returned for the index that was built is what
    /// [`Version::with_index`] returns for it: the version with that index if
    /// it is the inverse of the symbol table, else `None`.
    pub fn new(version_number: usize, padding: char, padding_4: [char; 4], emojis: [char; 1024]) -> (r:
        Option<Version>)
        ensures
            r matches Some(v) ==> v.wf() && v == Version::assembled(
                version_number,
                padding,
                padding_4,
                emojis,
                v.EMOJIS_REV,
            ),
            !Version::is_alphabet(version_number, padding, padding_4, emojis) ==> r is None,
    {
        if !all_different(&emojis) {
            return None;
        }
        let index = build_reverse(&emojis);
        let r = Version::with_index(version_number, padding, padding_4, emojis, index);
        proof {
            if r is Some {
                let v = r->0;
                v.lemma_tables_of_wf();
                assert(v.paddings() =~= seq![
                    padding,
                    padding_4[0],
                    padding_4[1],
                    padding_4[2],
                    padding_4[3],
                ]);
            }
        }
        r
    }

    /// The version that is made of the given tables and reverse index.
    pub open spec fn assembled(
        version_number: usize,
        padding: char,
        padding_4: [char; 4],
        emojis: [char; 1024],
        index: phf::Map<char, usize>,
    ) -> Version {
        Version {
            VERSION_NUMBER: version_number,
            PADDING: padding,
            PADDING_40: padding_4[0],
            PADDING_41: padding_4[1],
            PADDING_42: padding_4[2],
            PADDING_43: padding_4[3],
            EMOJIS: emojis,
            EMOJIS_REV: index,
        }
    }

    /// Whether the tables are those of an alphabet, whatever the reverse index
    /// is: the tag is 1 or 2, no symbol occurs twice, and the five padding
    /// scalars differ from each other and from every symbol.
    pub open spec fn is_alphabet(
        version_number: usize,
        padding: char,
        padding_4: [char; 4],
        emojis: [char; 1024],
    ) -> bool {
        let paddings = seq![padding, padding_4[0], padding_4[1], padding_4[2], padding_4[3]];
        &&& version_number == 1 || version_number == 2
        &&& emojis@.no_duplicates()
        &&& paddings.no_duplicates()
        &&& forall|i: int| 0 <= i < 5 ==> !emojis@.contains(#[trigger] paddings[i])
    }

    /// A consistent version has the tables of an alphabet.
    pub proof fn lemma_tables_of_wf(&self)
        requires
            self.wf(),
        ensures
            Version::is_alphabet(
                self.VERSION_NUMBER,
                self.PADDING,
                [self.PADDING_40, self.PADDING_41, self.PADDING_42, self.PADDING_43],
                self.EMOJIS,
            ),
    {
        let numbered = [self.PADDING_40, self.PADDING_41, self.PADDING_42, self.PADDING_43];
        let paddings = seq![self.PADDING, numbered[0], numbered[1], numbered[2], numbered[3]];
        assert(paddings =~= self.paddings());
    }

    /// Makes the alphabet of a version out of its tables and a reverse index
    /// that the caller has built. Returns the version with these parts if the
    /// tables are those of an alphabet and the index is the exact inverse of
    /// the symbol table, and `None` if not.
    pub fn with_index(
        version_number: usize,
        padding: char,
        padding_4: [char; 4],
        emojis: [char; 1024],
        index: phf::Map<char, usize>,
    ) -> (r: Option<Version>)
        ensures
            r == if Version::assembled(version_number, padding, padding_4, emojis, index).wf() {
                Some(Version::assembled(version_number, padding, padding_4, emojis, index))
            } else {
                None::<Version>
            },
    {
        let v = Version {
            VERSION_NUMBER: version_number,
            PADDING: padding,
            PADDING_40: padding_4[0],
            PADDING_41: padding_4[1],
            PADDING_42: padding_4[2],
            PADDING_43: padding_4[3],
            EMOJIS: emojis,
            EMOJIS_REV: index,
        };
        if v.is_well_formed() {
            Some(v)
        } else {
            None
        }
    }

    /// Tells whether `c` is the plain padding or one of the numbered ones.
    pub fn is_padding(&self, c: char) -> (b: bool)
        ensures
            b == self.is_padding_spec(c),
    {
        c == self.PADDING || c == self.PADDING_40 || c == self.PADDING_41 || c == self.PADDING_42
            || c == self.PADDING_43
    }

    /// Tells whether `c` is a symbol or a padding scalar of this version.
    pub fn is_valid_alphabet_char(&self, c: char) -> (b: bool)
        requires
            self.wf(),
        ensures
            b == self.accepts(c),
            b == (self.is_padding_spec(c) || self.symbols().contains(c)),
    {
        proof {
            self.lemma_reverse_inverts(c);
        }
        self.is_padding(c) || reverse_contains_key(&self.EMOJIS_REV, c)
    }

    /// Looks up the value of a symbol. Padding has none.
    pub fn index_of(&self, c: char) -> (r: Option<usize>)
        requires
            self.wf(),
        ensures
            r == self.index_of_spec(c),
            r matches Some(i) ==> i < 1024 && self.symbols()[i as int] == c,
            r is None ==> !self.symbols().contains(c),
    {
        let r = reverse_get(&self.EMOJIS_REV, c);
        proof {
            self.lemma_reverse_inverts(c);
        }
        r
    }

    /// The reverse index undoes the symbol table: looking up the symbol of a
    /// value gives the value, no symbol stands at two places, and the index
    /// has exactly 1024 entries.
    pub proof fn lemma_lookup_of_symbol(&self, i: int, j: int)
        requires
            self.wf(),
            0 <= i < 1024,
            0 <= j < 1024,
        ensures
            self.index_of_spec(self.symbols()[i]) == Some(i as usize),
            i != j ==> self.symbols()[i] != self.symbols()[j],
            self.reverse().dom().finite(),
            self.reverse().dom().len() == 1024,
    {
        assert(self.symbols().contains(self.symbols()[i]));
        assert(self.symbols().to_set().contains(self.symbols()[i]));
        assert(self.reverse()[self.symbols()[i]] == i);
        self.symbols().unique_seq_to_set();
        vstd::seq_lib::seq_to_set_is_finite(self.symbols());
    }

    /// In a consistent alphabet the reverse index of a symbol leads back to
    /// the symbol, and only symbols have one.
    pub proof fn lemma_reverse_inverts(&self, c: char)
        requires
            self.wf(),
        ensures
            self.reverse().contains_key(c) <==> self.symbols().contains(c),
            self.reverse().contains_key(c) ==> self.reverse()[c] < 1024
                && self.symbols()[self.reverse()[c] as int] == c,
    {
        if self.symbols().contains(c) {
            let i = choose|i: int| 0 <= i < self.symbols().len() && self.symbols()[i] == c;
            assert(self.reverse()[self.symbols()[i]] == i);
        }
    }

    /// Checks the whole alphabet: the version tag, the size of the reverse
    /// index, that each symbol is found under its own value, and that the
    /// padding scalars differ from each other and from every symbol.
    pub fn is_well_formed(&self) -> (ok: bool)
        ensures
            ok == self.wf(),
    {
        if self.VERSION_NUMBER != 1 && self.VERSION_NUMBER != 2 {
            return false;
        }
        if reverse_len(&self.EMOJIS_REV) != 1024 {
            return false;
        }
        if reverse_buckets(&self.EMOJIS_REV) > 0xffff_ffff {
            return false;
        }
        proof {
            let keys = choose|keys: Seq<char>|
                #[trigger] keys.len() == 1024 && forall|c: char| #[trigger]
                    self.reverse().contains_key(c) ==> keys.contains(c);
            lemma_keys_bound(self.reverse(), keys);
        }
        let p: [char; 5] = [
            self.PADDING,
            self.PADDING_40,
            self.PADDING_41,
            self.PADDING_42,
            self.PADDING_43,
        ];
        assert(p@ =~= self.paddings());
        let mut a: usize = 0;
        while a < 5
            invariant
                0 <= a <= 5,
                p@ == self.paddings(),
                searchable(self.EMOJIS_REV),
                forall|i: int, j: int| 0 <= j < i < a ==> p@[i] != p@[j],
                forall|i: int| 0 <= i < a ==> !self.reverse().contains_key(#[trigger] p@[i]),
            decreases 5 - a,
        {
            let mut b: usize = 0;
            while b < a
                invariant
                    0 <= b <= a < 5,
                    p@ == self.paddings(),
                    forall|j: int| 0 <= j < b ==> p@[a as int] != p@[j],
                decreases a - b,
            {
                if p[a] == p[b] {
                    return false;
                }
                b += 1;
            }
            if reverse_contains_key(&self.EMOJIS_REV, p[a]) {
                proof {
                    if self.wf() {
                        assert(self.symbols().to_set().contains(self.paddings()[a as int]));
                    }
                }
                return false;
            }
            a += 1;
        }
        let mut i: usize = 0;
        while i < 1024
            invariant
                0 <= i <= 1024,
                searchable(self.EMOJIS_REV),
                forall|k: int|
                    0 <= k < i ==> self.reverse().contains_key(#[trigger] self.symbols()[k])
                        && self.reverse()[self.symbols()[k]] == k,
            decreases 1024 - i,
        {
            match reverse_get(&self.EMOJIS_REV, self.EMOJIS[i]) {
                Some(v) => {
                    if v != i {
                        assert(self.reverse()[self.symbols()[i as int]] != i);
                        return false;
                    }
                },
                None => {
                    proof {
                        if self.wf() {
                            assert(self.symbols().contains(self.symbols()[i as int]));
                            assert(self.symbols().to_set().contains(self.symbols()[i as int]));
                        }
                    }
                    return false;
                },
            }
            i += 1;
        }
        proof {
            self.lemma_checked_is_wf();
        }
        true
    }

    /// What the run-time check has seen is enough: 1024 symbols that are each
    /// found under their own value, in an index that cannot hold more than
    /// 1024 keys, are all its keys.
    proof fn lemma_checked_is_wf(&self)
        requires
            self.VERSION_NUMBER == 1 || self.VERSION_NUMBER == 2,
            entry_count(self.EMOJIS_REV) == 1024,
            searchable(self.EMOJIS_REV),
            self.reverse().dom().finite(),
            self.reverse().dom().len() <= 1024,
            self.paddings().no_duplicates(),
            forall|i: int|
                0 <= i < 5 ==> !self.reverse().contains_key(#[trigger] self.paddings()[i]),
            forall|k: int|
                0 <= k < 1024 ==> self.reverse().contains_key(#[trigger] self.symbols()[k])
                    && self.reverse()[self.symbols()[k]] == k,
        ensures
            self.wf(),
    {
        let s = self.symbols();
        assert(s.no_duplicates()) by {
            assert forall|i: int, j: int|
                0 <= i < s.len() && 0 <= j < s.len() && i != j implies s[i] != s[j] by {
                assert(self.reverse()[s[i]] == i);
                assert(self.reverse()[s[j]] == j);
            }
        }
        s.unique_seq_to_set();
        vstd::seq_lib::seq_to_set_is_finite(s);
        assert(s.to_set().subset_of(self.reverse().dom())) by {
            assert forall|c: char| s.to_set().contains(c) implies self.reverse().dom().contains(
                c,
            ) by {
                let k = choose|k: int| 0 <= k < s.len() && s[k] == c;
                assert(self.reverse().contains_key(s[k]));
            }
        }
        vstd::set_lib::lemma_len_subset(s.to_set(), self.reverse().dom());
        vstd::set_lib::lemma_subset_equality(s.to_set(), self.reverse().dom());
        assert forall|i: int| 0 <= i < 5 implies !s.contains(#[trigger] self.paddings()[i]) by {
            if s.contains(self.paddings()[i]) {
                assert(s.to_set().contains(self.paddings()[i]));
            }
        }
    }
}

} // verus!
