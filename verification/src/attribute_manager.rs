use vstd::prelude::*;
use crate::feature::Feature;

verus! {

broadcast use vstd::seq_lib::group_to_multiset_ensures;

/// Bytes standing in for an absent attribute value in the digest input.
pub open spec fn sentinel_bytes() -> Seq<u8> {
    seq![78u8, 111u8, 110u8, 101u8]
}

/// The separator byte appended after every field, present or absent.
pub open spec fn separator_byte() -> u8 {
    124u8
}

/// The byte message fed to the digest for an attribute sequence: for each
/// field in order, its value bytes (or the sentinel when absent), then the
/// separator.
pub open spec fn fingerprint_input(attrs: Seq<Option<Seq<u8>>>) -> Seq<u8>
    decreases attrs.len(),
{
    if attrs.len() == 0 {
        Seq::empty()
    } else {
        fingerprint_input(attrs.drop_last()) + (match attrs.last() {
            Some(b) => b,
            None => sentinel_bytes(),
        }) + seq![separator_byte()]
    }
}

/// The digest that md5 computes of a byte sequence; it depends on the bytes
/// alone.
pub uninterp spec fn md5_of(bytes: Seq<u8>) -> Seq<u8>;

/// The fingerprint of an attribute sequence: the digest of its canonical byte
/// message. Fingerprint equality is the sole attribute-equality test used.
pub open spec fn fingerprint_of(attrs: Seq<Option<Seq<u8>>>) -> Seq<u8> {
    md5_of(fingerprint_input(attrs))
}

/// Two features are considered attribute-equal when their fingerprints match.
pub open spec fn equal_spec(a: Feature, b: Feature) -> bool {
    fingerprint_of(a.attrs_model()) == fingerprint_of(b.attrs_model())
}

/// A fixed-size digest of a feature's attribute values, used as an equality
/// proxy rather than compared value by value.
pub struct Fingerprint {
    pub bytes: Vec<u8>,
}

/// Relies on md5::compute: the 16-byte digest is a function of the input
/// bytes alone.
#[verifier::external_body]
fn md5_digest(bytes: &Vec<u8>) -> (r: Vec<u8>)
    ensures
        r@ == md5_of(bytes@),
        r@.len() == 16,
{
    md5::compute(bytes.as_slice()).0.to_vec()
}

/// Compares two byte vectors for equality of their contents.
fn bytes_equal(a: &Vec<u8>, b: &Vec<u8>) -> (r: bool)
    ensures
        r == (a@ == b@),
{
    if a.len() != b.len() {
        return false;
    }
    let n = a.len();
    let mut i: usize = 0;
    while i < n
        invariant
            n == a@.len(),
            n == b@.len(),
            0 <= i <= n,
            forall|k: int| 0 <= k < i ==> a@[k] == b@[k],
        decreases n - i,
    {
        if a[i] != b[i] {
            return false;
        }
        i = i + 1;
    }
    proof {
        assert(a@ =~= b@);
    }
    true
}

/// Finds the first field whose name equals `name`, if any.
fn find_field_exec(fields: &Vec<Vec<u8>>, name: &Vec<u8>) -> (r: Option<usize>)
    ensures
        match r {
            Some(i) => i < fields@.len() && find_field(fields_model(*fields), name@) == Some(
                i as int,
            ),
            None => find_field(fields_model(*fields), name@) is None,
        },
{
    let n = fields.len();
    let mut j: usize = 0;
    while j < n
        invariant
            n == fields@.len(),
            0 <= j <= n,
            forall|k: int| 0 <= k < j ==> fields_model(*fields)[k] != name@,
        decreases n - j,
    {
        if bytes_equal(&fields[j], name) {
            proof {
                assert(fields_model(*fields)[j as int] == name@);
                lemma_find_field_at(fields_model(*fields), name@, j as int);
            }
            return Some(j);
        }
        j = j + 1;
    }
    proof {
        lemma_find_field_props(fields_model(*fields), name@);
        if find_field(fields_model(*fields), name@) is Some {
            let i = find_field(fields_model(*fields), name@)->0;
            assert(fields_model(*fields)[i] == name@);
            assert(false);
        }
    }
    None
}

/// Administers a tabular schema: the ordered field names of a feature
/// collection, and the attribute-level equality test between features.
pub struct AttributeManager {
    pub fields: Vec<Vec<u8>>,
}

impl AttributeManager {
    /// Wraps the ordered field names of a collection's schema.
    pub fn new(fields: Vec<Vec<u8>>) -> (r: AttributeManager)
        ensures
            r.fields == fields,
    {
        AttributeManager { fields }
    }

    /// Converts field names to the positions they occupy in the schema, in
    /// name order; names that match no field are silently dropped.
    fn get_fields_index(&self, fields_to_remove: &Vec<Vec<u8>>) -> (r: Vec<u64>)
        ensures
            r@.len() == fields_index_spec(
                fields_model(self.fields),
                fields_model(*fields_to_remove),
            ).len(),
            forall|k: int|
                0 <= k < r@.len() ==> (#[trigger] r@[k]) as int == fields_index_spec(
                    fields_model(self.fields),
                    fields_model(*fields_to_remove),
                )[k],
    {
        let n = fields_to_remove.len();
        let mut index: Vec<u64> = Vec::new();
        let mut i: usize = 0;
        while i < n
            invariant
                n == fields_to_remove@.len(),
                0 <= i <= n,
                index@.len() == fields_index_spec(
                    fields_model(self.fields),
                    fields_model(*fields_to_remove).take(i as int),
                ).len(),
                forall|k: int|
                    0 <= k < index@.len() ==> (#[trigger] index@[k]) as int == fields_index_spec(
                        fields_model(self.fields),
                        fields_model(*fields_to_remove).take(i as int),
                    )[k],
            decreases n - i,
        {
            let ghost names = fields_model(*fields_to_remove);
            let found = find_field_exec(&self.fields, &fields_to_remove[i]);
            proof {
                assert(names.take(i + 1).drop_last() =~= names.take(i as int));
                assert(names.take(i + 1).last() == names[i as int]);
                assert(names[i as int] == fields_to_remove@[i as int]@);
            }
            match found {
                Some(fi) => {
                    index.push(fi as u64);
                },
                None => {},
            }
            i = i + 1;
        }
        proof {
            assert(fields_model(*fields_to_remove).take(n as int) =~= fields_model(
                *fields_to_remove,
            ));
        }
        index
    }

    /// Deletes the named fields from the schema. Names are resolved to
    /// positions first; the positions are deleted in descending order, so no
    /// earlier deletion can shift a later target; names that match no field
    /// are silently ignored.
    pub fn delete_fields(&mut self, fields_to_remove: Vec<Vec<u8>>)
        ensures
            fields_model(final (self).fields) == keep_positions(
                fields_model(old(self).fields),
                resolved_index_set(
                    fields_model(old(self).fields),
                    fields_model(fields_to_remove),
                ),
            ),
    {
        let ghost orig = fields_model(self.fields);
        let ghost names = fields_model(fields_to_remove);
        let nf = self.fields.len();
        proof {
            assert(orig.len() == nf as int);
        }
        let mut fields_index = self.get_fields_index(&fields_to_remove);
        let ghost spec_idx = fields_index_spec(orig, names);
        let ghost presort = fields_index@;
        proof {
            assert forall|k: int| 0 <= k < presort.len() implies 0 <= ((#[trigger] presort[k]) as int)
                && ((#[trigger] presort[k]) as int) < orig.len() by {
                let v = presort[k] as int;
                assert(spec_idx[k] == v);
                assert(spec_idx.contains(v));
                lemma_fields_index_elems(orig, names, v);
                let m = choose|m: int|
                    0 <= m < names.len() && find_field(orig, #[trigger] names[m]) == Some(v);
                lemma_find_field_props(orig, names[m]);
            }
        }
        crate::list_utils::descendant_sort(&mut fields_index);
        proof {
            assert forall|x: u64| fields_index@.contains(x) implies presort.contains(x) by {
                fields_index@.to_multiset_ensures();
                presort.to_multiset_ensures();
                assert(fields_index@.to_multiset().count(x) > 0);
                assert(presort.to_multiset().count(x) > 0);
            }
            assert forall|x: u64| presort.contains(x) implies fields_index@.contains(x) by {
                fields_index@.to_multiset_ensures();
                presort.to_multiset_ensures();
                assert(presort.to_multiset().count(x) > 0);
                assert(fields_index@.to_multiset().count(x) > 0);
            }
            assert forall|k: int| 0 <= k < fields_index@.len() implies 0 <= ((
            #[trigger] fields_index@[k]) as int) && (((#[trigger] fields_index@[k]) as int)
                < orig.len()) by {
                assert(fields_index@.contains(fields_index@[k]));
                assert(presort.contains(fields_index@[k]));
                let l = choose|l: int| 0 <= l < presort.len() && presort[l] == fields_index@[k];
            }
        }
        let ghost sorted = fields_index@;
        let ghost mut done: Set<int> = Set::empty();
        proof {
            lemma_keep_positions_all(orig, done);
            assert(fields_model(self.fields) == keep_positions(orig, done));
        }
        let m = fields_index.len();
        let mut j: usize = 0;
        while j < m
            invariant
                m == fields_index@.len(),
                0 <= j <= m,
                fields_index@ == sorted,
                forall|k: int, l: int| 0 <= k < l < m ==> sorted[k] >= sorted[l],
                forall|k: int|
                    0 <= k < m ==> 0 <= ((#[trigger] sorted[k]) as int) && ((
                    #[trigger] sorted[k]) as int) < orig.len(),
                forall|b: int|
                    done.contains(b) <==> exists|k: int|
                        0 <= k < j && (#[trigger] sorted[k]) as int == b,
                orig.len() <= usize::MAX as int,
                fields_model(self.fields) == keep_positions(orig, done),
            decreases m - j,
        {
            let d = fields_index[j];
            let dup = j > 0 && fields_index[j - 1] == d;
            if !dup {
                proof {
                    assert forall|b: int| done.contains(b) implies b > d as int by {
                        let k = choose|k: int| 0 <= k < j && (#[trigger] sorted[k]) as int == b;
                        assert(sorted[k] >= sorted[j - 1]);
                        assert(sorted[j - 1] >= sorted[j as int]);
                        if sorted[k] == d {
                            assert(sorted[j - 1] == d);
                        }
                    }
                    lemma_keep_positions_prefix(orig, done, d as int);
                    assert(d as usize as int == d as int);
                }
                let ghost before = fields_model(self.fields);
                let du = d as usize;
                self.fields.remove(du);
                proof {
                    assert(fields_model(self.fields) =~= before.remove(d as int));
                    lemma_keep_positions_remove(orig, done, d as int);
                    done = done.insert(d as int);
                    assert(fields_model(self.fields) =~= keep_positions(orig, done));
                }
            } else {
                proof {
                    assert(sorted[j - 1] == d);
                    assert(done.contains(d as int));
                }
            }
            j = j + 1;
        }
        proof {
            assert forall|b: int| done.contains(b) implies resolved_index_set(orig, names).contains(
                b,
            ) by {
                let k = choose|k: int| 0 <= k < m && (#[trigger] sorted[k]) as int == b;
                assert(sorted.contains(sorted[k]));
                assert(presort.contains(sorted[k]));
                let l = choose|l: int| 0 <= l < presort.len() && presort[l] == sorted[k];
                assert(spec_idx[l] == b);
                assert(spec_idx.contains(b));
                lemma_fields_index_elems(orig, names, b);
            }
            assert forall|b: int| resolved_index_set(orig, names).contains(b) implies done.contains(
                b,
            ) by {
                lemma_fields_index_elems(orig, names, b);
                assert(spec_idx.contains(b));
                let l = choose|l: int| 0 <= l < spec_idx.len() && spec_idx[l] == b;
                assert(presort[l] as int == b);
                assert(presort.contains(presort[l]));
                assert(fields_index@.contains(presort[l]));
                assert(sorted.contains(presort[l]));
                let k = choose|k: int| 0 <= k < sorted.len() && sorted[k] == presort[l];
            }
            assert(done =~= resolved_index_set(orig, names));
        }
    }

    /// Reports whether two features carry the same attribute values, by
    /// comparing their fingerprints.
    pub fn has_same_value(a: &Feature, b: &Feature) -> (r: bool)
        ensures
            r == equal_spec(*a, *b),
    {
        let ha = AttributeManager::get_attribute_hash(a);
        let hb = AttributeManager::get_attribute_hash(b);
        bytes_equal(&ha.bytes, &hb.bytes)
    }

    /// Digests a feature's ordered attribute values: each value's bytes, or a
    /// sentinel when absent, followed by a separator after every field.
    pub fn get_attribute_hash(feature: &Feature) -> (r: Fingerprint)
        ensures
            r.bytes@ == fingerprint_of(feature.attrs_model()),
            r.bytes@.len() == 16,
    {
        let mut msg: Vec<u8> = Vec::new();
        let n = feature.attrs.len();
        let mut i: usize = 0;
        while i < n
            invariant
                n == feature.attrs@.len(),
                0 <= i <= n,
                msg@ == fingerprint_input(feature.attrs_model().take(i as int)),
            decreases n - i,
        {
            let ghost base = msg@;
            match &feature.attrs[i] {
                Some(v) => {
                    let m = v.len();
                    let mut j: usize = 0;
                    while j < m
                        invariant
                            m == v@.len(),
                            0 <= j <= m,
                            msg@ == base + v@.take(j as int),
                        decreases m - j,
                    {
                        msg.push(v[j]);
                        proof {
                            assert(base + v@.take(j + 1) =~= (base + v@.take(j as int)).push(
                                v@[j as int],
                            ));
                        }
                        j = j + 1;
                    }
                    proof {
                        assert(v@.take(m as int) =~= v@);
                    }
                },
                None => {
                    msg.push(78u8);
                    msg.push(111u8);
                    msg.push(110u8);
                    msg.push(101u8);
                    proof {
                        assert(base + sentinel_bytes() =~= base.push(78u8).push(111u8).push(
                            110u8,
                        ).push(101u8));
                    }
                },
            }
            msg.push(124u8);
            proof {
                let model = feature.attrs_model();
                assert(model.take(i + 1).drop_last() =~= model.take(i as int));
                assert(model.take(i + 1).last() == model[i as int]);
                let field = match model[i as int] {
                    Some(b) => b,
                    None => sentinel_bytes(),
                };
                assert(msg@ =~= fingerprint_input(model.take(i as int)) + field + seq![
                    separator_byte(),
                ]);
            }
            i = i + 1;
        }
        proof {
            assert(feature.attrs_model().take(n as int) =~= feature.attrs_model());
        }
        let digest = md5_digest(&msg);
        Fingerprint { bytes: digest }
    }
}

/// The field names a schema holds, as a mathematical value.
pub open spec fn fields_model(fields: Vec<Vec<u8>>) -> Seq<Seq<u8>> {
    fields@.map_values(|f: Vec<u8>| f@)
}

/// The first position at which a name occurs among the fields, if any.
pub open spec fn find_field(fields: Seq<Seq<u8>>, name: Seq<u8>) -> Option<int>
    decreases fields.len(),
{
    if fields.len() == 0 {
        None
    } else if fields[0] == name {
        Some(0int)
    } else {
        match find_field(fields.skip(1), name) {
            Some(i) => Some(i + 1),
            None => None,
        }
    }
}

/// The positions that a list of names resolves to, in name order; a name that
/// resolves to no field contributes nothing.
pub open spec fn fields_index_spec(fields: Seq<Seq<u8>>, names: Seq<Seq<u8>>) -> Seq<int>
    decreases names.len(),
{
    if names.len() == 0 {
        Seq::empty()
    } else {
        let rest = fields_index_spec(fields, names.drop_last());
        match find_field(fields, names.last()) {
            Some(i) => rest.push(i),
            None => rest,
        }
    }
}

/// The set of positions that any of the names resolves to.
pub open spec fn resolved_index_set(fields: Seq<Seq<u8>>, names: Seq<Seq<u8>>) -> Set<int> {
    Set::new(
        |i: int|
            exists|k: int|
                0 <= k < names.len() && find_field(fields, #[trigger] names[k]) == Some(i),
    )
}

/// The schema left over when every position in `banned` is deleted, with the
/// order of the remaining fields kept.
pub open spec fn keep_positions(s: Seq<Seq<u8>>, banned: Set<int>) -> Seq<Seq<u8>>
    decreases s.len(),
{
    if s.len() == 0 {
        s
    } else {
        let rest = keep_positions(s.drop_last(), banned);
        if banned.contains(s.len() - 1) {
            rest
        } else {
            rest.push(s.last())
        }
    }
}

/// A resolved position always points at the field with that name.
proof fn lemma_find_field_props(fields: Seq<Seq<u8>>, name: Seq<u8>)
    ensures
        match find_field(fields, name) {
            Some(i) => 0 <= i < fields.len() && fields[i] == name,
            None => forall|k: int| 0 <= k < fields.len() ==> fields[k] != name,
        },
    decreases fields.len(),
{
    if fields.len() == 0 {
    } else if fields[0] == name {
    } else {
        lemma_find_field_props(fields.skip(1), name);
        let tail = fields.skip(1);
        assert(forall|k: int| 0 <= k < tail.len() ==> tail[k] == fields[k + 1]);
        match find_field(fields, name) {
            Some(i) => {
                assert(tail[i - 1] == name);
            },
            None => {
                assert forall|k: int| 0 <= k < fields.len() implies fields[k] != name by {
                    if k > 0 {
                        assert(tail[k - 1] == fields[k]);
                    }
                }
            },
        }
    }
}

/// Searching from the front finds exactly the first occurrence.
proof fn lemma_find_field_at(fields: Seq<Seq<u8>>, name: Seq<u8>, i: int)
    requires
        0 <= i < fields.len(),
        fields[i] == name,
        forall|k: int| 0 <= k < i ==> fields[k] != name,
    ensures
        find_field(fields, name) == Some(i),
    decreases i,
{
    if i == 0 {
    } else {
        let tail = fields.skip(1);
        assert(forall|k: int| 0 <= k < tail.len() ==> tail[k] == fields[k + 1]);
        lemma_find_field_at(tail, name, i - 1);
    }
}

/// A positions set that bans nothing below the sequence's length deletes
/// nothing.
proof fn lemma_keep_positions_all(s: Seq<Seq<u8>>, banned: Set<int>)
    requires
        forall|b: int| banned.contains(b) ==> b >= s.len(),
    ensures
        keep_positions(s, banned) =~= s,
    decreases s.len(),
{
    if s.len() == 0 {
    } else {
        lemma_keep_positions_all(s.drop_last(), banned);
        assert(keep_positions(s, banned) =~= s.drop_last().push(s.last()));
    }
}

/// Positions at or below `d` survive untouched when everything banned lies
/// above `d`.
proof fn lemma_keep_positions_prefix(s: Seq<Seq<u8>>, banned: Set<int>, d: int)
    requires
        0 <= d < s.len(),
        forall|b: int| banned.contains(b) ==> b > d,
    ensures
        keep_positions(s, banned).len() > d,
        forall|i: int| 0 <= i <= d ==> keep_positions(s, banned)[i] == s[i],
    decreases s.len(),
{
    let r = keep_positions(s, banned);
    if banned.contains(s.len() - 1) {
        assert(d < s.len() - 1);
        lemma_keep_positions_prefix(s.drop_last(), banned, d);
        assert forall|i: int| 0 <= i <= d implies r[i] == s[i] by {
            assert(r[i] == keep_positions(s.drop_last(), banned)[i]);
            assert(s.drop_last()[i] == s[i]);
        }
    } else {
        if d == s.len() - 1 {
            lemma_keep_positions_all(s.drop_last(), banned);
            assert(r =~= s);
        } else {
            lemma_keep_positions_prefix(s.drop_last(), banned, d);
            assert forall|i: int| 0 <= i <= d implies r[i] == s[i] by {
                assert(keep_positions(s.drop_last(), banned).len() > d);
                assert(r[i] == keep_positions(s.drop_last(), banned)[i]);
                assert(s.drop_last()[i] == s[i]);
            }
        }
    }
}

/// Deleting position `d` of what is left, when everything banned so far lies
/// above `d`, is the same as banning `d` as well.
proof fn lemma_keep_positions_remove(s: Seq<Seq<u8>>, banned: Set<int>, d: int)
    requires
        0 <= d < s.len(),
        forall|b: int| banned.contains(b) ==> b > d,
    ensures
        keep_positions(s, banned).remove(d) =~= keep_positions(s, banned.insert(d)),
    decreases s.len(),
{
    lemma_keep_positions_prefix(s, banned, d);
    if banned.contains(s.len() - 1) {
        assert(d < s.len() - 1);
        lemma_keep_positions_remove(s.drop_last(), banned, d);
        assert(keep_positions(s, banned.insert(d)) == keep_positions(
            s.drop_last(),
            banned.insert(d),
        ));
    } else {
        if d == s.len() - 1 {
            lemma_keep_positions_all(s, banned);
            assert(keep_positions(s, banned).remove(d) =~= s.drop_last());
            lemma_keep_positions_all(s.drop_last(), banned.insert(d));
        } else {
            let rest = keep_positions(s.drop_last(), banned);
            lemma_keep_positions_prefix(s.drop_last(), banned, d);
            lemma_keep_positions_remove(s.drop_last(), banned, d);
            assert(rest.push(s.last()).remove(d) =~= rest.remove(d).push(s.last()));
        }
    }
}

/// The positions list holds exactly the resolved positions.
proof fn lemma_fields_index_elems(fields: Seq<Seq<u8>>, names: Seq<Seq<u8>>, v: int)
    ensures
        fields_index_spec(fields, names).contains(v) <==> exists|k: int|
            0 <= k < names.len() && find_field(fields, #[trigger] names[k]) == Some(v),
    decreases names.len(),
{
    let r = fields_index_spec(fields, names);
    if names.len() == 0 {
    } else {
        lemma_fields_index_elems(fields, names.drop_last(), v);
        let rest = fields_index_spec(fields, names.drop_last());
        assert(forall|k: int| 0 <= k < names.len() - 1 ==> names.drop_last()[k] == names[k]);
        if rest.contains(v) {
            let k = choose|k: int|
                0 <= k < names.drop_last().len() && find_field(
                    fields,
                    #[trigger] names.drop_last()[k],
                ) == Some(v);
            assert(find_field(fields, names[k]) == Some(v));
            match find_field(fields, names.last()) {
                Some(i) => {
                    let l = choose|l: int| 0 <= l < rest.len() && rest[l] == v;
                    assert(r[l] == v);
                },
                None => {},
            }
        }
        if exists|k: int|
            0 <= k < names.len() && find_field(fields, #[trigger] names[k]) == Some(v) {
            let k = choose|k: int|
                0 <= k < names.len() && find_field(fields, #[trigger] names[k]) == Some(v);
            if k < names.len() - 1 {
                assert(find_field(fields, names.drop_last()[k]) == Some(v));
                assert(rest.contains(v));
                let l = choose|l: int| 0 <= l < rest.len() && rest[l] == v;
                assert(r[l] == v);
            } else {
                assert(r[r.len() - 1] == v);
            }
        }
        if r.contains(v) && !rest.contains(v) {
            let l = choose|l: int| 0 <= l < r.len() && r[l] == v;
            assert(find_field(fields, names.last()) == Some(v));
        }
    }
}

/// Fingerprint equality is reflexive and symmetric: a feature always equals
/// itself, and comparing two features does not depend on their order.
pub proof fn lemma_equal_reflexive_symmetric(a: Feature, b: Feature)
    ensures
        equal_spec(a, a),
        equal_spec(a, b) == equal_spec(b, a),
{
}

} // verus!
