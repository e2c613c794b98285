use vstd::prelude::*;

use crate::enr::{enr_text_decoding, enr_view_of, Enr, EnrView};
use crate::census::same_view;

verus! {

/// The record of the `trin-ams3-1` bootstrap node.
pub const TRIN_AMS3_1_ENR: &'static str = "enr:-Jy4QIs2pCyiKna9YWnAF0zgf7bT0GzlAGoF8MEKFJOExmtofBIqzm71zDvmzRiiLkxaEJcs_Amr7XIhLI74k1rtlXICY5Z0IDAuMS4xLWFscGhhLjEtMTEwZjUwgmlkgnY0gmlwhKEjVaWJc2VjcDI1NmsxoQLSC_nhF1iRwsCw0n3J4jRjqoaRxtKgsEe5a-Dz7y0JloN1ZHCCIyg";

/// The record of the `trin-nyc1-1` bootstrap node.
pub const TRIN_NYC1_1_ENR: &'static str = "enr:-Jy4QKSLYMpku9F0Ebk84zhIhwTkmn80UnYvE4Z4sOcLukASIcofrGdXVLAUPVHh8oPCfnEOZm1W1gcAxB9kV2FJywkCY5Z0IDAuMS4xLWFscGhhLjEtMTEwZjUwgmlkgnY0gmlwhJO2oc6Jc2VjcDI1NmsxoQLMSGVlxXL62N3sPtaV-n_TbZFCEM5AR7RDyIwOadbQK4N1ZHCCIyg";

/// The record of the `trin-sgp1-1` bootstrap node.
pub const TRIN_SGP1_1_ENR: &'static str = "enr:-Jy4QH4_H4cW--ejWDl_W7ngXw2m31MM2GT8_1ZgECnfWxMzZTiZKvHDgkmwUS_l2aqHHU54Q7hcFSPz6VGzkUjOqkcCY5Z0IDAuMS4xLWFscGhhLjEtMTEwZjUwgmlkgnY0gmlwhJ31OTWJc2VjcDI1NmsxoQPC0eRkjRajDiETr_DRa5N5VJRm-ttCWDoO1QAMMCg5pIN1ZHCCIyg";

/// The record of the `fluffy-1` bootstrap node.
pub const FLUFFY_1_ENR: &'static str = "enr:-Ia4QLBxlH0Y8hGPQ1IRF5EStZbZvCPHQ2OjaJkuFMz0NRoZIuO2dLP0L-W_8ZmgnVx5SwvxYCXmX7zrHYv0FeHFFR0TY2aCaWSCdjSCaXCEwiErIIlzZWNwMjU2azGhAnnTykipGqyOy-ZRB9ga9pQVPF-wQs-yj_rYUoOqXEjbg3VkcIIjjA";

/// The record of the `fluffy-2` bootstrap node.
pub const FLUFFY_2_ENR: &'static str = "enr:-Ia4QM4amOkJf5z84Lv5Fl0RgWeSSDUekwnOPRn6XA1eMWgrHwWmn_gJGtOeuVfuX7ywGuPMRwb0odqQ9N_w_2Qc53gTY2aCaWSCdjSCaXCEwiErIYlzZWNwMjU2azGhAzaQEdPmz9SHiCw2I5yVAO8sriQ-mhC5yB7ea1u4u5QZg3VkcIIjjA";

/// The record of the `fluffy-3` bootstrap node.
pub const FLUFFY_3_ENR: &'static str = "enr:-Ia4QKVuHjNafkYuvhU7yCvSarNIVXquzJ8QOp5YbWJRIJw_EDVOIMNJ_fInfYoAvlRCHEx9LUQpYpqJa04pUDU21uoTY2aCaWSCdjSCaXCEwiErQIlzZWNwMjU2azGhA47eAW5oIDJAqxxqI0sL0d8ttXMV0h6sRIWU4ZwS4pYfg3VkcIIjjA";

/// The record of the `fluffy-4` bootstrap node.
pub const FLUFFY_4_ENR: &'static str = "enr:-Ia4QIU9U3zrP2DM7sfpgLJbbYpg12sWeXNeYcpKN49-6fhRCng0IUoVRI2E51mN-2eKJ4tbTimxNLaAnbA7r7fxVjcTY2aCaWSCdjSCaXCEwiErQYlzZWNwMjU2azGhAxOroJ3HceYvdD2yK1q9w8c9tgrISJso8q_JXI6U0Xwng3VkcIIjjA";

/// The record of the `ultralight-1` bootstrap node.
pub const ULTRALIGHT_1_ENR: &'static str = "enr:-IS4QFV_wTNknw7qiCGAbHf6LxB-xPQCktyrCEZX-b-7PikMOIKkBg-frHRBkfwhI3XaYo_T-HxBYmOOQGNwThkBBHYDgmlkgnY0gmlwhKRc9_OJc2VjcDI1NmsxoQKHPt5CQ0D66ueTtSUqwGjfhscU_LiwS28QvJ0GgJFd-YN1ZHCCE4k";

/// The record of the `ultralight-2` bootstrap node.
pub const ULTRALIGHT_2_ENR: &'static str = "enr:-IS4QDpUz2hQBNt0DECFm8Zy58Hi59PF_7sw780X3qA0vzJEB2IEd5RtVdPUYZUbeg4f0LMradgwpyIhYUeSxz2Tfa8DgmlkgnY0gmlwhKRc9_OJc2VjcDI1NmsxoQJd4NAVKOXfbdxyjSOUJzmA4rjtg43EDeEJu1f8YRhb_4N1ZHCCE4o";

/// The record of the `ultralight-3` bootstrap node.
pub const ULTRALIGHT_3_ENR: &'static str = "enr:-IS4QGG6moBhLW1oXz84NaKEHaRcim64qzFn1hAG80yQyVGNLoKqzJe887kEjthr7rJCNlt6vdVMKMNoUC9OCeNK-EMDgmlkgnY0gmlwhKRc9-KJc2VjcDI1NmsxoQLJhXByb3LmxHQaqgLDtIGUmpANXaBbFw3ybZWzGqb9-IN1ZHCCE4k";

/// The record of the `ultralight-4` bootstrap node.
pub const ULTRALIGHT_4_ENR: &'static str = "enr:-IS4QA5hpJikeDFf1DD1_Le6_ylgrLGpdwn3SRaneGu9hY2HUI7peHep0f28UUMzbC0PvlWjN8zSfnqMG07WVcCyBhADgmlkgnY0gmlwhKRc9-KJc2VjcDI1NmsxoQJMpHmGj1xSP1O-Mffk_jYIHVcg6tY5_CjmWVg1gJEsPIN1ZHCCE4o";

/// The record of the `angelfood-trin-1` bootstrap node.
pub const ANGELFOOD_TRIN_1_ENR: &'static str = "enr:-LC4QMnoW2m4YYQRPjZhJ5hEpcA6a3V7iQs3slQ1TepzKBIVWQtjpcHsPINc0TcheMCbx6I2n5aax8M3AtUObt74ySUCY6p0IDVhYzI2NzViNGRmMjNhNmEwOWVjNDFkZTRlYTQ2ODQxNjk2ZTQ1YzSCaWSCdjSCaXCEQONKaYlzZWNwMjU2azGhAvZgYbpA9G8NQ6X4agu-R7Ymtu0hcX6xBQ--UEel_b6Pg3VkcIIjKA";

/// The portal networks that have their own bootstrap nodes.
#[derive(Clone, Copy, Debug, PartialEq, Eq, Structural)]
pub enum Network {
    Mainnet,
    Angelfood,
}

/// A bootstrap node: its record and a name for it.
#[derive(Debug, PartialEq, Eq)]
pub struct Bootnode {
    pub enr: Enr,
    pub alias: String,
}

impl Bootnode {
    pub open spec fn view(&self) -> (EnrView, Seq<char>) {
        (self.enr@, self.alias@)
    }

    /// A copy of this bootstrap node.
    pub fn duplicate(&self) -> (r: Bootnode)
        ensures
            r@ == self@,
    {
        Bootnode { enr: self.enr.duplicate(), alias: self.alias.clone() }
    }
}

impl Clone for Bootnode {
    fn clone(&self) -> (r: Self)
        ensures
            r@ == self@,
    {
        self.duplicate()
    }
}

/// The records and names of the mainnet bootstrap nodes.
pub open spec fn default_bootnode_texts() -> Seq<(Seq<char>, Seq<char>)> {
    seq![
        (TRIN_AMS3_1_ENR@, "trin-ams3-1"@),
        (TRIN_NYC1_1_ENR@, "trin-nyc1-1"@),
        (TRIN_SGP1_1_ENR@, "trin-sgp1-1"@),
        (FLUFFY_1_ENR@, "fluffy-1"@),
        (FLUFFY_2_ENR@, "fluffy-2"@),
        (FLUFFY_3_ENR@, "fluffy-3"@),
        (FLUFFY_4_ENR@, "fluffy-4"@),
        (ULTRALIGHT_1_ENR@, "ultralight-1"@),
        (ULTRALIGHT_2_ENR@, "ultralight-2"@),
        (ULTRALIGHT_3_ENR@, "ultralight-3"@),
        (ULTRALIGHT_4_ENR@, "ultralight-4"@),
    ]
}

/// The records and names of the angelfood bootstrap nodes.
pub open spec fn angelfood_bootnode_texts() -> Seq<(Seq<char>, Seq<char>)> {
    seq![
        (ANGELFOOD_TRIN_1_ENR@, "angelfood-trin-1"@),
    ]
}

/// The decodable entries of a list of (record text, name) pairs, decoded.
pub open spec fn decoded(l: Seq<(Seq<char>, Seq<char>)>) -> Seq<(EnrView, Seq<char>)>
    decreases l.len(),
{
    if l.len() == 0 {
        Seq::empty()
    } else {
        let rest = decoded(l.drop_last());
        match enr_text_decoding(l.last().0) {
            Some(t) => rest.push((enr_view_of(t), l.last().1)),
            None => rest,
        }
    }
}

pub open spec fn bootnode_views(s: Seq<Bootnode>) -> Seq<(EnrView, Seq<char>)> {
    s.map_values(|b: Bootnode| b@)
}

pub open spec fn enr_views(s: Seq<Enr>) -> Seq<EnrView> {
    s.map_values(|e: Enr| e@)
}

pub open spec fn text_pairs(s: Seq<(&str, &str)>) -> Seq<(Seq<char>, Seq<char>)> {
    s.map_values(|p: (&str, &str)| (p.0@, p.1@))
}

fn decode_list(entries: Vec<(&str, &str)>) -> (r: Vec<Bootnode>)
    ensures
        bootnode_views(r@) == decoded(text_pairs(entries@)),
{
    let ghost input = text_pairs(entries@);
    let mut out: Vec<Bootnode> = Vec::new();
    let mut i: usize = 0;
    proof {
        assert(input.take(0) =~= Seq::<(Seq<char>, Seq<char>)>::empty());
        assert(bootnode_views(out@) =~= Seq::<(EnrView, Seq<char>)>::empty());
    }
    while i < entries.len()
        invariant
            0 <= i <= entries@.len(),
            input == text_pairs(entries@),
            bootnode_views(out@) == decoded(input.take(i as int)),
        decreases entries@.len() - i,
    {
        let (text, alias) = entries[i];
        let ghost before = bootnode_views(out@);
        proof {
            assert(input.take(i + 1).drop_last() =~= input.take(i as int));
            assert(input.take(i + 1).last() == (text@, alias@));
        }
        match Enr::from_text(text) {
            Some(enr) => {
                out.push(Bootnode { enr, alias: alias.to_string() });
                proof {
                    assert(bootnode_views(out@) =~= before.push((enr@, alias@)));
                }
            },
            None => {},
        }
        i = i + 1;
    }
    assert(input.take(entries@.len() as int) =~= input);
    out
}

/// The mainnet bootstrap nodes (those whose record decodes).
pub fn default_bootnodes() -> (r: Vec<Bootnode>)
    ensures
        bootnode_views(r@) == decoded(default_bootnode_texts()),
{
    let entries: Vec<(&str, &str)> = vec![
            (TRIN_AMS3_1_ENR, "trin-ams3-1"),
            (TRIN_NYC1_1_ENR, "trin-nyc1-1"),
            (TRIN_SGP1_1_ENR, "trin-sgp1-1"),
            (FLUFFY_1_ENR, "fluffy-1"),
            (FLUFFY_2_ENR, "fluffy-2"),
            (FLUFFY_3_ENR, "fluffy-3"),
            (FLUFFY_4_ENR, "fluffy-4"),
            (ULTRALIGHT_1_ENR, "ultralight-1"),
            (ULTRALIGHT_2_ENR, "ultralight-2"),
            (ULTRALIGHT_3_ENR, "ultralight-3"),
            (ULTRALIGHT_4_ENR, "ultralight-4"),
        ];
    assert(text_pairs(entries@) =~= default_bootnode_texts());
    decode_list(entries)
}

/// The angelfood bootstrap nodes (those whose record decodes).
pub fn angelfood_bootnodes() -> (r: Vec<Bootnode>)
    ensures
        bootnode_views(r@) == decoded(angelfood_bootnode_texts()),
{
    let entries: Vec<(&str, &str)> = vec![
            (ANGELFOOD_TRIN_1_ENR, "angelfood-trin-1"),
        ];
    assert(text_pairs(entries@) =~= angelfood_bootnode_texts());
    decode_list(entries)
}

/// All known bootstrap nodes: the mainnet ones, then the angelfood ones.
pub open spec fn known_bootnodes() -> Seq<(EnrView, Seq<char>)> {
    decoded(default_bootnode_texts()) + decoded(angelfood_bootnode_texts())
}

/// Position `k` holds the first known bootstrap node with this record.
pub open spec fn first_match(l: Seq<(EnrView, Seq<char>)>, e: EnrView, k: int) -> bool {
    0 <= k < l.len() && same_view(l[k].0, e) && forall|j: int| 0 <= j < k ==> !same_view(l[j].0, e)
}

/// The bootstrap node for a record: the first known one with the same
/// record, or the record named `custom`.
pub open spec fn bootnode_for(e: EnrView) -> (EnrView, Seq<char>) {
    let l = known_bootnodes();
    if exists|k: int| first_match(l, e, k) {
        l[choose|k: int| first_match(l, e, k)]
    } else {
        (e, "custom"@)
    }
}

impl Bootnode {
    /// The known bootstrap node with the same record, or the record as a
    /// bootstrap node named `custom`.
    pub fn from(enr: Enr) -> (b: Bootnode)
        ensures
            b@ == bootnode_for(enr@),
    {
        let mut known = default_bootnodes();
        let mut more = angelfood_bootnodes();
        known.append(&mut more);
        let ghost l = known_bootnodes();
        assert(bootnode_views(known@) =~= l);
        let mut k: usize = 0;
        while k < known.len()
            invariant
                0 <= k <= known@.len(),
                l == known_bootnodes(),
                bootnode_views(known@) == l,
                forall|j: int| 0 <= j < k ==> !same_view(l[j].0, enr@),
            decreases known@.len() - k,
        {
            if known[k].enr.same_record(&enr) {
                proof {
                    assert(known@[k as int]@ == l[k as int]);
                    assert(first_match(known_bootnodes(), enr@, k as int));
                    assert(exists|c: int| first_match(known_bootnodes(), enr@, c));
                    let c = choose|c: int| first_match(known_bootnodes(), enr@, c);
                    if c < k {
                        assert(!same_view(l[c].0, enr@));
                    }
                    if c > k {
                        assert(!same_view(l[k as int].0, enr@));
                    }
                    assert(c == k);
                    assert(bootnode_for(enr@) == l[k as int]);
                }
                let b = known[k].duplicate();
                assert(b@ == known@[k as int]@);
                return b;
            }
            k = k + 1;
        }
        Bootnode { enr, alias: "custom".to_string() }
    }
}

/// Which bootstrap nodes to use.
#[derive(Debug, PartialEq, Eq)]
pub enum Bootnodes {
    /// The network's own bootstrap nodes.
    Default,
    /// No bootstrap nodes.
    Empty,
    /// The given bootstrap nodes.
    Custom(Vec<Bootnode>),
}

impl Default for Bootnodes {
    fn default() -> (r: Self)
        ensures
            r is Default,
    {
        Bootnodes::Default
    }
}

/// The text given for the bootstrap nodes is neither `default`, nor
/// `none`, nor a comma separated list of valid records.
#[derive(Clone, Copy, Debug, PartialEq, Eq, Structural)]
pub enum BootnodesError {
    InvalidBootnodeArgument,
}

impl BootnodesError {
    pub fn to_string(&self) -> (s: String)
        ensures
            s@ == "Invalid bootnode argument"@,
    {
        "Invalid bootnode argument".to_string()
    }
}

/// The pieces of a text between commas (one piece where there is no comma,
/// an empty piece where two commas meet or at either end).
pub open spec fn split_commas(s: Seq<char>) -> Seq<Seq<char>>
    decreases s.len(),
{
    if s.len() == 0 {
        seq![Seq::<char>::empty()]
    } else {
        let rest = split_commas(s.drop_last());
        if s.last() == ',' {
            rest.push(Seq::empty())
        } else {
            rest.update(rest.len() - 1, rest.last().push(s.last()))
        }
    }
}

proof fn lemma_split_nonempty(s: Seq<char>)
    ensures
        split_commas(s).len() >= 1,
    decreases s.len(),
{
    if s.len() > 0 {
        lemma_split_nonempty(s.drop_last());
    }
}

/// The pieces put back together with a comma between each two.
pub open spec fn join_with_commas(p: Seq<Seq<char>>) -> Seq<char>
    decreases p.len(),
{
    if p.len() == 0 {
        Seq::empty()
    } else if p.len() == 1 {
        p[0]
    } else {
        join_with_commas(p.drop_last()) + seq![','] + p.last()
    }
}

/// Splitting at commas loses nothing: the pieces, joined again with
/// commas, give back the text, and no piece holds a comma.
pub proof fn law_split_commas_rejoins(s: Seq<char>)
    ensures
        join_with_commas(split_commas(s)) == s,
        forall|i: int, j: int|
            0 <= i < split_commas(s).len() && 0 <= j < split_commas(s)[i].len() ==> #[trigger] split_commas(s)[i][j]
                != ',',
    decreases s.len(),
{
    if s.len() > 0 {
        let t = s.drop_last();
        let c = s.last();
        law_split_commas_rejoins(t);
        lemma_split_nonempty(t);
        let rest = split_commas(t);
        let out = split_commas(s);
        if c == ',' {
            assert(out == rest.push(Seq::<char>::empty()));
            assert(out.drop_last() =~= rest);
            assert(join_with_commas(out) =~= s);
            assert forall|i: int, j: int|
                0 <= i < out.len() && 0 <= j < out[i].len() implies #[trigger] out[i][j] != ',' by {
                assert(out[i] == rest[i]);
            }
        } else {
            let n = rest.len() - 1;
            let x = rest.last().push(c);
            assert(out == rest.update(n, x));
            if rest.len() == 1 {
                assert(join_with_commas(rest) == rest[0]);
                assert(join_with_commas(out) == out[0]);
                assert(join_with_commas(out) =~= s);
            } else {
                assert(out.drop_last() =~= rest.drop_last());
                assert(join_with_commas(rest) == join_with_commas(rest.drop_last()) + seq![','] + rest.last());
                assert(join_with_commas(out) == join_with_commas(out.drop_last()) + seq![','] + out.last());
                let j0 = join_with_commas(rest.drop_last()) + seq![','];
                assert(out.last() == x);
                assert(join_with_commas(out) == j0 + x);
                assert(t == j0 + rest.last());
                assert(s =~= t.push(c));
                assert(j0 + x =~= (j0 + rest.last()).push(c));
                assert(join_with_commas(out) =~= s);
            }
            assert forall|i: int, j: int|
                0 <= i < out.len() && 0 <= j < out[i].len() implies #[trigger] out[i][j] != ',' by {
                if i == n {
                    if j < rest[n].len() {
                        assert(out[i][j] == rest[n][j]);
                    }
                } else {
                    assert(out[i] == rest[i]);
                }
            }
        }
    }
}

pub open spec fn str_views(s: Seq<&str>) -> Seq<Seq<char>> {
    s.map_values(|p: &str| p@)
}

/// Splits a text at its commas.
pub fn split_at_commas(s: &str) -> (r: Vec<&str>)
    ensures
        str_views(r@) == split_commas(s@),
{
    let n = s.unicode_len();
    let mut pieces: Vec<&str> = Vec::new();
    let mut start: usize = 0;
    let mut i: usize = 0;
    proof {
        assert(s@.take(0) =~= Seq::<char>::empty());
        assert(str_views(pieces@).push(s@.subrange(0, 0)) =~= split_commas(s@.take(0)));
    }
    while i < n
        invariant
            n == s@.len(),
            0 <= start <= i <= n,
            str_views(pieces@).push(s@.subrange(start as int, i as int)) == split_commas(s@.take(i as int)),
        decreases n - i,
    {
        let c = s.get_char(i);
        let ghost before = str_views(pieces@);
        proof {
            assert(s@.take(i + 1).drop_last() =~= s@.take(i as int));
            assert(s@.take(i + 1).last() == c);
            lemma_split_nonempty(s@.take(i as int));
        }
        if c == ',' {
            let piece = s.substring_char(start, i);
            pieces.push(piece);
            proof {
                assert(str_views(pieces@) =~= before.push(s@.subrange(start as int, i as int)));
                assert(s@.subrange(i + 1, i + 1) =~= Seq::<char>::empty());
            }
            start = i + 1;
        } else {
            proof {
                assert(s@.subrange(start as int, i + 1) =~= s@.subrange(start as int, i as int).push(c));
                assert(before.push(s@.subrange(start as int, i + 1)) =~= before.push(s@.subrange(start as int, i as int)).update(
                    before.len() as int, s@.subrange(start as int, i as int).push(c)));
            }
        }
        i = i + 1;
    }
    let piece = s.substring_char(start, n);
    pieces.push(piece);
    assert(s@.take(n as int) =~= s@);
    pieces
}

/// Whether two texts are equal.
pub fn str_eq(a: &str, b: &str) -> (r: bool)
    ensures
        r == (a@ == b@),
{
    let n = a.unicode_len();
    if n != b.unicode_len() {
        return false;
    }
    let mut i: usize = 0;
    while i < n
        invariant
            n == a@.len(),
            n == b@.len(),
            0 <= i <= n,
            forall|j: int| 0 <= j < i ==> a@[j] == b@[j],
        decreases n - i,
    {
        if a.get_char(i) != b.get_char(i) {
            return false;
        }
        i = i + 1;
    }
    assert(a@ =~= b@);
    true
}

/// Every piece is a valid record.
pub open spec fn all_decode(pieces: Seq<Seq<char>>) -> bool {
    forall|i: int| 0 <= i < pieces.len() ==> #[trigger] enr_text_decoding(pieces[i]) is Some
}

/// The bootstrap node of each piece.
pub open spec fn custom_bootnodes(pieces: Seq<Seq<char>>) -> Seq<(EnrView, Seq<char>)> {
    pieces.map_values(|p: Seq<char>| bootnode_for(enr_view_of(enr_text_decoding(p)->0)))
}

impl Bootnodes {
    /// Reads the bootstrap node setting: `default`, `none`, or a comma
    /// separated list of records, each of which must be valid.
    pub fn from_str(s: &str) -> (r: Result<Bootnodes, BootnodesError>)
        ensures
            s@ == "default"@ ==> r matches Ok(Bootnodes::Default),
            s@ != "default"@ && s@ == "none"@ ==> r matches Ok(Bootnodes::Empty),
            s@ != "default"@ && s@ != "none"@ ==> {
                let pieces = split_commas(s@);
                &&& r is Ok <==> all_decode(pieces)
                &&& r is Err ==> r == Err::<Bootnodes, BootnodesError>(BootnodesError::InvalidBootnodeArgument)
                &&& r matches Ok(b) ==> b matches Bootnodes::Custom(v) && bootnode_views(v@)
                    == custom_bootnodes(pieces)
            },
    {
        if str_eq(s, "default") {
            return Ok(Bootnodes::Default);
        }
        if str_eq(s, "none") {
            return Ok(Bootnodes::Empty);
        }
        let pieces = split_at_commas(s);
        let ghost ps = str_views(pieces@);
        let mut out: Vec<Bootnode> = Vec::new();
        let mut i: usize = 0;
        while i < pieces.len()
            invariant
                0 <= i <= pieces@.len(),
                ps == str_views(pieces@),
                ps == split_commas(s@),
                s@ != "default"@,
                s@ != "none"@,
                forall|j: int| 0 <= j < i ==> #[trigger] enr_text_decoding(ps[j]) is Some,
                bootnode_views(out@) == custom_bootnodes(ps.take(i as int)),
            decreases pieces@.len() - i,
        {
            match Enr::from_text(pieces[i]) {
                Some(enr) => {
                    let ghost before = bootnode_views(out@);
                    let b = Bootnode::from(enr);
                    out.push(b);
                    proof {
                        assert(pieces@[i as int]@ == ps[i as int]);
                        assert(ps.take(i + 1) =~= ps.take(i as int).push(ps[i as int]));
                        assert(custom_bootnodes(ps.take(i + 1)) =~= custom_bootnodes(ps.take(i as int)).push(
                            bootnode_for(enr_view_of(enr_text_decoding(ps[i as int])->0))));
                        assert(bootnode_views(out@) =~= before.push(b@));
                    }
                },
                None => {
                    proof {
                        assert(pieces@[i as int]@ == ps[i as int]);
                        assert(!all_decode(ps));
                    }
                    return Err(BootnodesError::InvalidBootnodeArgument);
                },
            }
            i = i + 1;
        }
        assert(ps.take(pieces@.len() as int) =~= ps);
        Ok(Bootnodes::Custom(out))
    }

    /// The records of the bootstrap nodes to use on a network.
    pub fn to_enrs(&self, network: Network) -> (r: Vec<Enr>)
        ensures
            enr_views(r@) == match self {
                Bootnodes::Default => match network {
                    Network::Mainnet => decoded(default_bootnode_texts()).map_values(
                        |b: (EnrView, Seq<char>)| b.0,
                    ),
                    Network::Angelfood => decoded(angelfood_bootnode_texts()).map_values(
                        |b: (EnrView, Seq<char>)| b.0,
                    ),
                },
                Bootnodes::Empty => Seq::<EnrView>::empty(),
                Bootnodes::Custom(v) => bootnode_views(v@).map_values(|b: (EnrView, Seq<char>)| b.0),
            },
    {
        match self {
            Bootnodes::Default => match network {
                Network::Mainnet => enrs_of(&default_bootnodes()),
                Network::Angelfood => enrs_of(&angelfood_bootnodes()),
            },
            Bootnodes::Empty => {
                let r: Vec<Enr> = Vec::new();
                assert(enr_views(r@) =~= Seq::<EnrView>::empty());
                r
            },
            Bootnodes::Custom(v) => enrs_of(v),
        }
    }
}

/// The records of a list of bootstrap nodes.
fn enrs_of(v: &Vec<Bootnode>) -> (r: Vec<Enr>)
    ensures
        enr_views(r@) == bootnode_views(v@).map_values(|b: (EnrView, Seq<char>)| b.0),
{
    let mut r: Vec<Enr> = Vec::new();
    let mut i: usize = 0;
    while i < v.len()
        invariant
            0 <= i <= v@.len(),
            enr_views(r@) == bootnode_views(v@).map_values(|b: (EnrView, Seq<char>)| b.0).take(i as int),
        decreases v@.len() - i,
    {
        let ghost before = enr_views(r@);
        r.push(v[i].enr.duplicate());
        assert(bootnode_views(v@)[i as int].0 == v@[i as int].enr@);
        assert(enr_views(r@) =~= before.push(v@[i as int].enr@));
        assert(enr_views(r@) =~= bootnode_views(v@).map_values(|b: (EnrView, Seq<char>)| b.0).take(i + 1));
        i = i + 1;
    }
    assert(bootnode_views(v@).map_values(|b: (EnrView, Seq<char>)| b.0).take(v@.len() as int)
        =~= bootnode_views(v@).map_values(|b: (EnrView, Seq<char>)| b.0));
    r
}

} // verus!
