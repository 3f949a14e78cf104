use crate::chrom_map::keys_view;
use vstd::prelude::*;

verus! {

/// The human chromosome names: 1 to 22, X and Y.
pub open spec fn human_chroms() -> Seq<Seq<u8>> {
    seq![
        seq![99u8, 104u8, 114u8, 49u8],
        seq![99u8, 104u8, 114u8, 50u8],
        seq![99u8, 104u8, 114u8, 51u8],
        seq![99u8, 104u8, 114u8, 52u8],
        seq![99u8, 104u8, 114u8, 53u8],
        seq![99u8, 104u8, 114u8, 54u8],
        seq![99u8, 104u8, 114u8, 55u8],
        seq![99u8, 104u8, 114u8, 56u8],
        seq![99u8, 104u8, 114u8, 57u8],
        seq![99u8, 104u8, 114u8, 49u8, 48u8],
        seq![99u8, 104u8, 114u8, 49u8, 49u8],
        seq![99u8, 104u8, 114u8, 49u8, 50u8],
        seq![99u8, 104u8, 114u8, 49u8, 51u8],
        seq![99u8, 104u8, 114u8, 49u8, 52u8],
        seq![99u8, 104u8, 114u8, 49u8, 53u8],
        seq![99u8, 104u8, 114u8, 49u8, 54u8],
        seq![99u8, 104u8, 114u8, 49u8, 55u8],
        seq![99u8, 104u8, 114u8, 49u8, 56u8],
        seq![99u8, 104u8, 114u8, 49u8, 57u8],
        seq![99u8, 104u8, 114u8, 50u8, 48u8],
        seq![99u8, 104u8, 114u8, 50u8, 49u8],
        seq![99u8, 104u8, 114u8, 50u8, 50u8],
        seq![99u8, 104u8, 114u8, 88u8],
        seq![99u8, 104u8, 114u8, 89u8]
    ]
}

/// Returns the default inclusion set of human chromosome names.
pub fn get_default_human_chrom_inclusion_set() -> (r: Vec<Vec<u8>>)
    ensures
        keys_view(r@) =~= human_chroms(),
{
    let mut r: Vec<Vec<u8>> = Vec::new();
    {
        let mut v: Vec<u8> = Vec::new();
        v.push(99);
        v.push(104);
        v.push(114);
        v.push(49);
        r.push(v);
    }
    {
        let mut v: Vec<u8> = Vec::new();
        v.push(99);
        v.push(104);
        v.push(114);
        v.push(50);
        r.push(v);
    }
    {
        let mut v: Vec<u8> = Vec::new();
        v.push(99);
        v.push(104);
        v.push(114);
        v.push(51);
        r.push(v);
    }
    {
        let mut v: Vec<u8> = Vec::new();
        v.push(99);
        v.push(104);
        v.push(114);
        v.push(52);
        r.push(v);
    }
    {
        let mut v: Vec<u8> = Vec::new();
        v.push(99);
        v.push(104);
        v.push(114);
        v.push(53);
        r.push(v);
    }
    {
        let mut v: Vec<u8> = Vec::new();
        v.push(99);
        v.push(104);
        v.push(114);
        v.push(54);
        r.push(v);
    }
    {
        let mut v: Vec<u8> = Vec::new();
        v.push(99);
        v.push(104);
        v.push(114);
        v.push(55);
        r.push(v);
    }
    {
        let mut v: Vec<u8> = Vec::new();
        v.push(99);
        v.push(104);
        v.push(114);
        v.push(56);
        r.push(v);
    }
    {
        let mut v: Vec<u8> = Vec::new();
        v.push(99);
        v.push(104);
        v.push(114);
        v.push(57);
        r.push(v);
    }
    {
        let mut v: Vec<u8> = Vec::new();
        v.push(99);
        v.push(104);
        v.push(114);
        v.push(49);
        v.push(48);
        r.push(v);
    }
    {
        let mut v: Vec<u8> = Vec::new();
        v.push(99);
        v.push(104);
        v.push(114);
        v.push(49);
        v.push(49);
        r.push(v);
    }
    {
        let mut v: Vec<u8> = Vec::new();
        v.push(99);
        v.push(104);
        v.push(114);
        v.push(49);
        v.push(50);
        r.push(v);
    }
    {
        let mut v: Vec<u8> = Vec::new();
        v.push(99);
        v.push(104);
        v.push(114);
        v.push(49);
        v.push(51);
        r.push(v);
    }
    {
        let mut v: Vec<u8> = Vec::new();
        v.push(99);
        v.push(104);
        v.push(114);
        v.push(49);
        v.push(52);
        r.push(v);
    }
    {
        let mut v: Vec<u8> = Vec::new();
        v.push(99);
        v.push(104);
        v.push(114);
        v.push(49);
        v.push(53);
        r.push(v);
    }
    {
        let mut v: Vec<u8> = Vec::new();
        v.push(99);
        v.push(104);
        v.push(114);
        v.push(49);
        v.push(54);
        r.push(v);
    }
    {
        let mut v: Vec<u8> = Vec::new();
        v.push(99);
        v.push(104);
        v.push(114);
        v.push(49);
        v.push(55);
        r.push(v);
    }
    {
        let mut v: Vec<u8> = Vec::new();
        v.push(99);
        v.push(104);
        v.push(114);
        v.push(49);
        v.push(56);
        r.push(v);
    }
    {
        let mut v: Vec<u8> = Vec::new();
        v.push(99);
        v.push(104);
        v.push(114);
        v.push(49);
        v.push(57);
        r.push(v);
    }
    {
        let mut v: Vec<u8> = Vec::new();
        v.push(99);
        v.push(104);
        v.push(114);
        v.push(50);
        v.push(48);
        r.push(v);
    }
    {
        let mut v: Vec<u8> = Vec::new();
        v.push(99);
        v.push(104);
        v.push(114);
        v.push(50);
        v.push(49);
        r.push(v);
    }
    {
        let mut v: Vec<u8> = Vec::new();
        v.push(99);
        v.push(104);
        v.push(114);
        v.push(50);
        v.push(50);
        r.push(v);
    }
    {
        let mut v: Vec<u8> = Vec::new();
        v.push(99);
        v.push(104);
        v.push(114);
        v.push(88);
        r.push(v);
    }
    {
        let mut v: Vec<u8> = Vec::new();
        v.push(99);
        v.push(104);
        v.push(114);
        v.push(89);
        r.push(v);
    }
    proof {
        assert(keys_view(r@)[0] =~= human_chroms()[0]);
        assert(keys_view(r@)[1] =~= human_chroms()[1]);
        assert(keys_view(r@)[2] =~= human_chroms()[2]);
        assert(keys_view(r@)[3] =~= human_chroms()[3]);
        assert(keys_view(r@)[4] =~= human_chroms()[4]);
        assert(keys_view(r@)[5] =~= human_chroms()[5]);
        assert(keys_view(r@)[6] =~= human_chroms()[6]);
        assert(keys_view(r@)[7] =~= human_chroms()[7]);
        assert(keys_view(r@)[8] =~= human_chroms()[8]);
        assert(keys_view(r@)[9] =~= human_chroms()[9]);
        assert(keys_view(r@)[10] =~= human_chroms()[10]);
        assert(keys_view(r@)[11] =~= human_chroms()[11]);
        assert(keys_view(r@)[12] =~= human_chroms()[12]);
        assert(keys_view(r@)[13] =~= human_chroms()[13]);
        assert(keys_view(r@)[14] =~= human_chroms()[14]);
        assert(keys_view(r@)[15] =~= human_chroms()[15]);
        assert(keys_view(r@)[16] =~= human_chroms()[16]);
        assert(keys_view(r@)[17] =~= human_chroms()[17]);
        assert(keys_view(r@)[18] =~= human_chroms()[18]);
        assert(keys_view(r@)[19] =~= human_chroms()[19]);
        assert(keys_view(r@)[20] =~= human_chroms()[20]);
        assert(keys_view(r@)[21] =~= human_chroms()[21]);
        assert(keys_view(r@)[22] =~= human_chroms()[22]);
        assert(keys_view(r@)[23] =~= human_chroms()[23]);
        assert(keys_view(r@) =~= human_chroms());
    }
    r
}

} // verus!
