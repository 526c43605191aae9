//! A whole file held in memory: its row groups and its footer.
use vstd::prelude::*;
use crate::bytes::{append_bytes, push_le, NL};
use crate::codec::Serialize;
use crate::error::PlankError;
use crate::footer::{footer_bytes, Footer, FooterView};
use crate::layout::trailer_bytes;
use crate::rowgroup::{rowgroup_bytes, RowGroup};
use crate::tags::{tag_bytes, Tag};

verus! {

/// The bytes of row groups, back to back.
pub open spec fn groups_bytes(gs: Seq<Seq<Seq<Seq<char>>>>) -> Seq<u8>
    decreases gs.len(),
{
    if gs.len() == 0 {
        Seq::<u8>::empty()
    } else {
        groups_bytes(gs.drop_last()) + rowgroup_bytes(gs.last())
    }
}

/// The contents of an in-memory file.
pub struct SF2View {
    pub rowgroups: Seq<Seq<Seq<Seq<char>>>>,
    pub footer: FooterView,
}

/// Row groups and the footer that describes them.
pub struct SF2 {
    rowgroups: Vec<RowGroup>,
    footer: Footer,
}

impl View for SF2 {
    type V = SF2View;

    closed spec fn view(&self) -> SF2View {
        SF2View {
            rowgroups: self.rowgroups@.map_values(|g: RowGroup| g@),
            footer: self.footer@,
        }
    }
}

impl SF2 {
    pub fn new(rowgroups: Vec<RowGroup>, footer: Footer) -> (r: SF2)
        ensures
            r@ == (SF2View {
                rowgroups: rowgroups@.map_values(|g: RowGroup| g@),
                footer: footer@,
            }),
    {
        SF2 { rowgroups, footer }
    }
}

/// The bytes of an in-memory file: the row groups, the footer, and the
/// trailer pointing at the footer.
pub open spec fn sf2_bytes(v: SF2View) -> Seq<u8> {
    groups_bytes(v.rowgroups) + footer_bytes(v.footer) + trailer_bytes(
        groups_bytes(v.rowgroups).len() as u32,
    )
}

impl SF2 {
    /// The bytes of the file; `TooLarge` when the row groups take more bytes
    /// than a 32-bit footer offset can point past.
    pub fn to_bytes(&self) -> (r: Result<Vec<u8>, PlankError>)
        ensures
            r is Ok <==> groups_bytes(self@.rowgroups).len() <= u32::MAX,
            r matches Ok(b) ==> b@ == sf2_bytes(self@),
            r matches Err(e) ==> e == PlankError::TooLarge,
    {
        let ghost gs = self@.rowgroups;
        let mut out: Vec<u8> = Vec::new();
        let mut i: usize = 0;
        assert(gs.subrange(0, 0) =~= Seq::<Seq<Seq<Seq<char>>>>::empty());
        while i < self.rowgroups.len()
            invariant
                i <= self.rowgroups@.len(),
                gs == self@.rowgroups,
                gs == self.rowgroups@.map_values(|g: RowGroup| g@),
                out@ == groups_bytes(gs.subrange(0, i as int)),
            decreases self.rowgroups@.len() - i,
        {
            let b = self.rowgroups[i].to_bytes();
            append_bytes(&mut out, b.as_slice());
            proof {
                let next = gs.subrange(0, i + 1);
                assert(next.drop_last() =~= gs.subrange(0, i as int));
                assert(next.last() == self.rowgroups@[i as int]@);
            }
            i = i + 1;
        }
        assert(gs.subrange(0, gs.len() as int) =~= gs);
        if out.len() as u64 > u32::MAX as u64 {
            return Err(PlankError::TooLarge);
        }
        let data_len = out.len() as u32;
        let fb = self.footer.encode();
        append_bytes(&mut out, fb.as_slice());
        let t = tag_bytes(Tag::FooterOffset);
        append_bytes(&mut out, t.as_slice());
        push_le(&mut out, data_len);
        out.push(NL);
        assert(out@ =~= sf2_bytes(self@));
        Ok(out)
    }
}

} // verus!
