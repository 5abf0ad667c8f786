//! The V1 flat index: a mount point and an ordered list of named entries in
//! full form. Order is preserved on round-trip.

use vstd::prelude::*;

use crate::archive::{
    enc_str, enc_u32, dec_str, dec_u32, lemma_dec_str, lemma_dec_u32, str_bytes, str_fits,
    ArchiveReader, ArchiveWriter,
};
use crate::pakentry::{
    dec_entry, enc_entry, entry_encodable, entry_lossless, lemma_dec_enc_entry, PakEntry,
    PakEntryV,
};
use crate::pakindexv2::str_cmp3;
use crate::{PakError, PakVersion};

verus! {

/// The flat V1 index.
pub struct PakIndexV1 {
    /// Mount point.
    pub mount_point: String,
    /// The named entries, in insertion order.
    pub files: Vec<(String, PakEntry)>,
}

/// The mathematical value of the entry list.
pub open spec fn v1_files_view(files: Seq<(String, PakEntry)>) -> Seq<(Seq<char>, PakEntryV)> {
    files.map(|i: int, p: (String, PakEntry)| (p.0@, p.1@))
}

/// Every name fits its length prefix and every entry is representable.
pub open spec fn v1_encodable(files: Seq<(Seq<char>, PakEntryV)>, v: PakVersion) -> bool {
    &&& files.len() <= u32::MAX
    &&& forall|i: int|
        0 <= i < files.len() ==> str_fits((#[trigger] files[i]).0) && entry_encodable(
            files[i].1,
            v,
        )
}

pub open spec fn enc_v1_entries(files: Seq<(Seq<char>, PakEntryV)>, v: PakVersion) -> Seq<u8>
    decreases files.len(),
{
    if files.len() == 0 {
        Seq::empty()
    } else {
        enc_str(files[0].0) + enc_entry(files[0].1, v) + enc_v1_entries(files.drop_first(), v)
    }
}

/// The whole V1 index on the wire.
pub open spec fn enc_v1(mount: Seq<char>, files: Seq<(Seq<char>, PakEntryV)>, v: PakVersion) -> Seq<
    u8,
> {
    enc_str(mount) + enc_u32(files.len() as u32) + enc_v1_entries(files, v)
}

pub open spec fn dec_v1_entries(s: Seq<u8>, n: nat, v: PakVersion) -> Option<
    (Seq<(Seq<char>, PakEntryV)>, int),
>
    decreases n,
{
    if n == 0 {
        Some((Seq::empty(), 0int))
    } else {
        match dec_str(s) {
            None => None,
            Some((name, p1)) => match dec_entry(s.skip(p1), v) {
                None => None,
                Some((e, p2)) => match dec_v1_entries(s.skip(p1 + p2), (n - 1) as nat, v) {
                    None => None,
                    Some((rest, p3)) => Some((seq![(name, e)] + rest, p1 + p2 + p3)),
                },
            },
        }
    }
}

pub open spec fn dec_v1(s: Seq<u8>, v: PakVersion) -> Option<
    ((Seq<char>, Seq<(Seq<char>, PakEntryV)>), int),
> {
    match dec_str(s) {
        None => None,
        Some((mount, p0)) => match dec_u32(s.skip(p0)) {
            None => None,
            Some((n, _)) => match dec_v1_entries(s.skip(p0 + 4), n as nat, v) {
                None => None,
                Some((files, p1)) => Some(((mount, files), p0 + 4 + p1)),
            },
        },
    }
}

proof fn lemma_enc_v1_entries_push(
    files: Seq<(Seq<char>, PakEntryV)>,
    p: (Seq<char>, PakEntryV),
    v: PakVersion,
)
    ensures
        enc_v1_entries(files.push(p), v) == enc_v1_entries(files, v) + enc_str(p.0) + enc_entry(
            p.1,
            v,
        ),
    decreases files.len(),
{
    if files.len() == 0 {
        assert(files.push(p)[0] == p);
        assert(files =~= Seq::<(Seq<char>, PakEntryV)>::empty());
        assert(files.push(p).drop_first() =~= files);
        assert(enc_v1_entries(files, v) =~= Seq::<u8>::empty());
        assert(enc_v1_entries(files.push(p), v) =~= enc_v1_entries(files, v) + enc_str(p.0)
            + enc_entry(p.1, v));
    } else {
        assert(files.push(p).drop_first() =~= files.drop_first().push(p));
        assert(files.push(p)[0] == files[0]);
        lemma_enc_v1_entries_push(files.drop_first(), p, v);
        assert(enc_v1_entries(files.push(p), v) =~= enc_v1_entries(files, v) + enc_str(p.0)
            + enc_entry(p.1, v));
    }
}

/// Parsing the entry list inverts encoding it, entry for entry.
proof fn lemma_dec_enc_v1_entries(files: Seq<(Seq<char>, PakEntryV)>, v: PakVersion, rest: Seq<u8>)
    requires
        forall|i: int|
            0 <= i < files.len() ==> str_fits((#[trigger] files[i]).0) && entry_encodable(
                files[i].1,
                v,
            ) && entry_lossless(files[i].1, v),
    ensures
        dec_v1_entries(enc_v1_entries(files, v) + rest, files.len() as nat, v) == Some(
            (files, enc_v1_entries(files, v).len() as int),
        ),
    decreases files.len(),
{
    if files.len() == 0 {
        assert(enc_v1_entries(files, v) + rest =~= rest);
        assert(files =~= Seq::<(Seq<char>, PakEntryV)>::empty());
    } else {
        lemma_dec_enc_v1_entries(files.drop_first(), v, rest);
        lemma_v1_entries_cons(files, v, rest);
    }
}

/// One-entry step of the list round trip.
#[verifier::rlimit(100)]
#[verifier::spinoff_prover]
proof fn lemma_v1_entries_cons(files: Seq<(Seq<char>, PakEntryV)>, v: PakVersion, rest: Seq<u8>)
    requires
        files.len() > 0,
        str_fits(files[0].0),
        entry_encodable(files[0].1, v),
        entry_lossless(files[0].1, v),
        dec_v1_entries(
            enc_v1_entries(files.drop_first(), v) + rest,
            (files.len() - 1) as nat,
            v,
        ) == Some(
            (files.drop_first(), enc_v1_entries(files.drop_first(), v).len() as int),
        ),
    ensures
        dec_v1_entries(enc_v1_entries(files, v) + rest, files.len() as nat, v) == Some(
            (files, enc_v1_entries(files, v).len() as int),
        ),
{
    let p = files[0];
    let s = enc_v1_entries(files, v) + rest;
    let tail = enc_entry(p.1, v) + enc_v1_entries(files.drop_first(), v) + rest;
    lemma_dec_str(p.0, tail);
    assert(s =~= enc_str(p.0) + tail);
    let p1 = enc_str(p.0).len() as int;
    lemma_dec_enc_entry(p.1, v, enc_v1_entries(files.drop_first(), v) + rest);
    assert(s.skip(p1) =~= enc_entry(p.1, v) + (enc_v1_entries(files.drop_first(), v) + rest));
    let p2 = enc_entry(p.1, v).len() as int;
    assert(s.skip(p1 + p2) =~= enc_v1_entries(files.drop_first(), v) + rest);
    assert(seq![(p.0, p.1)] + files.drop_first() =~= files);
}

/// Parsing a V1 index inverts encoding it: the mount point and the entry
/// list, names and order included, come back exactly.
pub proof fn lemma_dec_enc_v1(
    mount: Seq<char>,
    files: Seq<(Seq<char>, PakEntryV)>,
    v: PakVersion,
    rest: Seq<u8>,
)
    requires
        str_fits(mount),
        files.len() <= u32::MAX,
        forall|i: int|
            0 <= i < files.len() ==> str_fits((#[trigger] files[i]).0) && entry_encodable(
                files[i].1,
                v,
            ) && entry_lossless(files[i].1, v),
    ensures
        dec_v1(enc_v1(mount, files, v) + rest, v) == Some(
            ((mount, files), enc_v1(mount, files, v).len() as int),
        ),
{
    vstd::bytes::lemma_auto_spec_u32_to_from_le_bytes();
    let s = enc_v1(mount, files, v) + rest;
    let tail = enc_u32(files.len() as u32) + enc_v1_entries(files, v) + rest;
    lemma_dec_str(mount, tail);
    assert(s =~= enc_str(mount) + tail);
    let p0 = enc_str(mount).len() as int;
    lemma_dec_u32(files.len() as u32, enc_v1_entries(files, v) + rest);
    assert(s.skip(p0) =~= enc_u32(files.len() as u32) + (enc_v1_entries(files, v) + rest));
    lemma_dec_enc_v1_entries(files, v, rest);
    assert(s.skip(p0 + 4) =~= enc_v1_entries(files, v) + rest);
    assert((files.len() as u32) as nat == files.len());
}

impl PakIndexV1 {
    pub fn new() -> (r: Self)
        ensures
            r.mount_point@ == Seq::<char>::empty(),
            r.files@ =~= Seq::<(String, PakEntry)>::empty(),
    {
        PakIndexV1 { mount_point: String::new(), files: Vec::new() }
    }

    /// The entry stored under a name: of several pairs with the same name,
    /// the most recently added wins, as the original's rebuilt name map did.
    pub fn find(&self, name: &str) -> (r: Option<&PakEntry>)
        ensures
            match r {
                Some(e) => exists|i: int|
                    0 <= i < self.files@.len() && (#[trigger] self.files@[i]).0@ == name@
                        && self.files@[i].1 == *e && (forall|k: int|
                        i < k < self.files@.len() ==> (#[trigger] self.files@[k]).0@ != name@),
                None => forall|i: int|
                    0 <= i < self.files@.len() ==> (#[trigger] self.files@[i]).0@ != name@,
            },
    {
        let mut i: usize = self.files.len();
        while i > 0
            invariant
                i <= self.files@.len(),
                forall|j: int|
                    i as int <= j < self.files@.len() ==> (#[trigger] self.files@[j]).0@ != name@,
            decreases i,
        {
            i = i - 1;
            if str_cmp3(self.files[i].0.as_str(), name) == 0 {
                proof {
                    lemma_utf8_injective(self.files@[i as int].0@, name@);
                }
                return Some(&self.files[i].1);
            }
            proof {
                if self.files@[i as int].0@ == name@ {
                    assert(str_bytes(self.files@[i as int].0@) == str_bytes(name@));
                }
            }
        }
        None
    }

    /// All named entries, in insertion order.
    pub fn named_entries(&self) -> (r: Vec<(String, PakEntry)>)
        ensures
            r@.len() == self.files@.len(),
            forall|i: int|
                0 <= i < r@.len() ==> (#[trigger] r@[i]).0@ == self.files@[i].0@ && r@[i].1@
                    == self.files@[i].1@,
    {
        let mut out: Vec<(String, PakEntry)> = Vec::new();
        let mut i: usize = 0;
        while i < self.files.len()
            invariant
                i <= self.files@.len(),
                out@.len() == i as int,
                forall|j: int|
                    0 <= j < i as int ==> (#[trigger] out@[j]).0@ == self.files@[j].0@ && out@[j].1@
                        == self.files@[j].1@,
            decreases self.files@.len() - i,
        {
            out.push((self.files[i].0.clone(), self.files[i].1.duplicate()));
            i = i + 1;
        }
        out
    }

    /// The entries alone, in insertion order.
    pub fn entries(&self) -> (r: Vec<PakEntry>)
        ensures
            r@.len() == self.files@.len(),
            forall|i: int| 0 <= i < r@.len() ==> (#[trigger] r@[i])@ == self.files@[i].1@,
    {
        let mut out: Vec<PakEntry> = Vec::new();
        let mut i: usize = 0;
        while i < self.files.len()
            invariant
                i <= self.files@.len(),
                out@.len() == i as int,
                forall|j: int| 0 <= j < i as int ==> (#[trigger] out@[j])@ == self.files@[j].1@,
            decreases self.files@.len() - i,
        {
            out.push(self.files[i].1.duplicate());
            i = i + 1;
        }
        out
    }

    /// Consumes the index, handing out its named entries.
    pub fn take_entries(self) -> (r: Vec<(String, PakEntry)>)
        ensures
            r@ == self.files@,
    {
        self.files
    }

    pub fn clear(&mut self)
        ensures
            final(self).mount_point@ == old(self).mount_point@,
            final(self).files@.len() == 0,
    {
        self.files.clear();
    }

    /// Appends a named entry.
    pub fn add(&mut self, name: String, entry: PakEntry)
        ensures
            final(self).mount_point@ == old(self).mount_point@,
            final(self).files@ == old(self).files@.push((name, entry)),
    {
        self.files.push((name, entry));
    }

    /// Writes the index. `InvalidInput` exactly when a name is too long, an
    /// entry cannot be represented at the version, or the count overflows.
    pub fn ser(&self, w: &mut ArchiveWriter, version: PakVersion) -> (r: Result<(), PakError>)
        ensures
            match r {
                Ok(()) => str_fits(self.mount_point@) && v1_encodable(
                    v1_files_view(self.files@),
                    version,
                ) && final(w).data@ == old(w).data@ + enc_v1(
                    self.mount_point@,
                    v1_files_view(self.files@),
                    version,
                ),
                Err(e) => e == PakError::InvalidInput && !(str_fits(self.mount_point@)
                    && v1_encodable(v1_files_view(self.files@), version)),
            },
    {
        let ghost b0 = w.data@;
        if self.files.len() > u32::MAX as usize {
            return Err(PakError::InvalidInput);
        }
        match w.ser_str(self.mount_point.as_str()) {
            Ok(()) => (),
            Err(e) => { return Err(e) },
        }
        w.ser_u32(self.files.len() as u32);
        let ghost bmid = w.data@;
        let ghost fv = v1_files_view(self.files@);
        let mut i: usize = 0;
        while i < self.files.len()
            invariant
                i <= self.files@.len(),
                fv == v1_files_view(self.files@),
                fv.len() == self.files@.len(),
                forall|j: int|
                    0 <= j < fv.len() ==> (#[trigger] fv[j]).0 == self.files@[j].0@ && fv[j].1
                        == self.files@[j].1@,
                forall|j: int|
                    0 <= j < i as int ==> str_fits((#[trigger] fv[j]).0) && entry_encodable(
                        fv[j].1,
                        version,
                    ),
                w.data@ =~= bmid + enc_v1_entries(fv.take(i as int), version),
            decreases self.files@.len() - i,
        {
            let ghost before = w.data@;
            match w.ser_str(self.files[i].0.as_str()) {
                Ok(()) => (),
                Err(e) => {
                    proof {
                        assert(!str_fits(v1_files_view(self.files@)[i as int].0));
                    }
                    return Err(e)
                },
            }
            match self.files[i].1.ser(w, version) {
                Ok(()) => (),
                Err(e) => {
                    proof {
                        assert(!entry_encodable(
                            v1_files_view(self.files@)[i as int].1,
                            version,
                        ));
                    }
                    return Err(e)
                },
            }
            proof {
                lemma_enc_v1_entries_push(fv.take(i as int), fv[i as int], version);
                assert(fv.take(i + 1) =~= fv.take(i as int).push(fv[i as int]));
                assert(w.data@ =~= bmid + enc_v1_entries(fv.take(i + 1), version));
            }
            i = i + 1;
        }
        proof {
            assert(fv.take(fv.len() as int) =~= fv);
            assert(w.data@ =~= b0 + enc_v1(self.mount_point@, fv, version));
        }
        Ok(())
    }

    /// Reads an index; succeeds exactly when the parser accepts the bytes.
    pub fn de(r: &mut ArchiveReader, version: PakVersion) -> (res: Result<PakIndexV1, PakError>)
        requires
            old(r).wf(),
        ensures
            final(r).wf(),
            final(r).data@ == old(r).data@,
            match res {
                Ok(x) => dec_v1(old(r).remaining(), version) == Some(
                    ((x.mount_point@, v1_files_view(x.files@)), final(r).pos - old(r).pos),
                ),
                Err(e) => dec_v1(old(r).remaining(), version) is None && (e == PakError::Eof || e
                    == PakError::Other),
            },
    {
        let ghost s = old(r).remaining();
        let ghost p0 = r.pos as int;
        let mount = match r.de_str() {
            Ok(m) => m,
            Err(e) => { return Err(e) },
        };
        let ghost pm = r.pos - p0;
        proof {
            assert(r.remaining() =~= s.skip(pm));
        }
        let n = match r.de_u32() {
            Ok(x) => x,
            Err(e) => { return Err(e) },
        };
        proof {
            assert(r.remaining() =~= s.skip(pm + 4));
        }
        let ghost region = s.skip(pm + 4);
        let mut files: Vec<(String, PakEntry)> = Vec::new();
        let mut i: usize = 0;
        proof {
            assert(region.skip(0) =~= region);
            assert(v1_files_view(files@) =~= Seq::<(Seq<char>, PakEntryV)>::empty());
        }
        while i < n as usize
            invariant
                r.wf(),
                r.data@ == old(r).data@,
                i <= n as usize,
                region == s.skip(pm + 4),
                pm + 4 >= 4,
                0 <= p0,
                p0 == old(r).pos as int,
                p0 + pm + 4 <= r.data@.len(),
                s == old(r).remaining(),
                s == old(r).data@.subrange(p0, old(r).data@.len() as int),
                r.pos >= p0 + pm + 4,
                files@.len() == i as int,
                dec_v1_entries(region, i as nat, version) == Some(
                    (v1_files_view(files@), r.pos - p0 - pm - 4),
                ),
                dec_str(s) == Some((mount@, pm)),
                dec_u32(s.skip(pm)) == Some((n, 4int)),
            decreases n as int - i,
        {
            proof {
                assert(r.remaining() =~= region.skip(r.pos - p0 - pm - 4));
            }
            let ghost qcur = r.pos - p0 - pm - 4;
            let name = match r.de_str() {
                Ok(x) => x,
                Err(e) => {
                    proof {
                        lemma_dec_v1_entries_fail(region, i as nat, n as nat, version, qcur);
                    }
                    return Err(e)
                },
            };
            let ghost p1g = r.pos - p0 - pm - 4 - qcur;
            proof {
                assert(r.remaining() =~= region.skip(qcur + p1g));
            }
            let entry = match PakEntry::de(r, version) {
                Ok(x) => x,
                Err(e) => {
                    proof {
                        lemma_dec_v1_entries_fail2(
                            region,
                            i as nat,
                            n as nat,
                            version,
                            qcur,
                            name@,
                            p1g,
                        );
                    }
                    return Err(e)
                },
            };
            let ghost fv_before = v1_files_view(files@);
            files.push((name, entry));
            proof {
                assert(v1_files_view(files@) =~= fv_before.push((name@, entry@)));
                lemma_dec_v1_entries_step(region, i as nat, version, qcur, fv_before, name@, entry@, r.pos - p0 - pm - 4);
            }
            i = i + 1;
        }
        Ok(PakIndexV1 { mount_point: mount, files })
    }
}



/// UTF-8 encoding is injective on character sequences.
proof fn lemma_utf8_injective(a: Seq<char>, b: Seq<char>)
    requires
        str_bytes(a) == str_bytes(b),
    ensures
        a == b,
{
    vstd::utf8::encode_utf8_decode_utf8(a);
    vstd::utf8::encode_utf8_decode_utf8(b);
}

/// A successful string parse consumes a positive number of bytes in range.
pub proof fn lemma_dec_str_bounds(s: Seq<u8>)
    requires
        dec_str(s) is Some,
    ensures
        0 < dec_str(s)->Some_0.1 <= s.len(),
{
}

/// A successful entry parse consumes a positive number of bytes in range.
proof fn lemma_dec_entry_bounds(s: Seq<u8>, v: PakVersion)
    requires
        dec_entry(s, v) is Some,
    ensures
        0 < dec_entry(s, v)->Some_0.1 <= s.len(),
{
    let m = crate::pakentry::dec_method(s.skip(24), v)->Some_0;
    assert(m.1 == 1 || m.1 == 4);
}

/// A successful list parse consumes a number of bytes in range.
proof fn lemma_dec_v1_entries_bounds(region: Seq<u8>, i: nat, v: PakVersion)
    requires
        dec_v1_entries(region, i, v) is Some,
    ensures
        0 <= dec_v1_entries(region, i, v)->Some_0.1 <= region.len(),
        dec_v1_entries(region, i, v)->Some_0.0.len() == i,
    decreases i,
{
    if i > 0 {
        lemma_dec_v1_entries_unstep(region, i, v);
        let h = dec_str(region)->Some_0;
        let e = dec_entry(region.skip(h.1), v)->Some_0;
        lemma_dec_str_bounds(region);
        lemma_dec_entry_bounds(region.skip(h.1), v);
        lemma_dec_v1_entries_bounds(region.skip(h.1 + e.1), (i - 1) as nat, v);
    }
}

/// A parse that fails at entry `i` fails the whole list.
proof fn lemma_dec_v1_entries_fail(region: Seq<u8>, i: nat, n: nat, v: PakVersion, q: int)
    requires
        i < n,
        dec_v1_entries(region, i, v) is Some,
        q == dec_v1_entries(region, i, v)->Some_0.1,
        dec_str(region.skip(q)) is None,
    ensures
        dec_v1_entries(region, n, v) is None,
    decreases i,
{
    if i == 0 {
        assert(region.skip(0) =~= region);
    } else {
        lemma_dec_v1_entries_unstep(region, i, v);
        let h = dec_str(region)->Some_0;
        let e = dec_entry(region.skip(h.1), v)->Some_0;
        let sub = region.skip(h.1 + e.1);
        lemma_dec_str_bounds(region);
        lemma_dec_entry_bounds(region.skip(h.1), v);
        lemma_dec_v1_entries_bounds(sub, (i - 1) as nat, v);
        assert(sub.skip(q - h.1 - e.1) =~= region.skip(q));
        lemma_dec_v1_entries_fail(sub, (i - 1) as nat, (n - 1) as nat, v, q - h.1 - e.1);
    }
}

/// A parse whose entry body fails at entry `i` fails the whole list.
#[verifier::rlimit(100)]
#[verifier::spinoff_prover]
proof fn lemma_dec_v1_entries_fail2(
    region: Seq<u8>,
    i: nat,
    n: nat,
    v: PakVersion,
    q: int,
    name: Seq<char>,
    p1: int,
)
    requires
        i < n,
        dec_v1_entries(region, i, v) is Some,
        q == dec_v1_entries(region, i, v)->Some_0.1,
        dec_str(region.skip(q)) == Some((name, p1)),
        dec_entry(region.skip(q + p1), v) is None,
    ensures
        dec_v1_entries(region, n, v) is None,
    decreases i,
{
    if i == 0 {
        assert(region.skip(0) =~= region);
        assert(region.skip(q).skip(p1) =~= region.skip(q + p1));
    } else {
        lemma_dec_v1_entries_unstep(region, i, v);
        let h = dec_str(region)->Some_0;
        let e = dec_entry(region.skip(h.1), v)->Some_0;
        let sub = region.skip(h.1 + e.1);
        lemma_dec_str_bounds(region);
        lemma_dec_entry_bounds(region.skip(h.1), v);
        lemma_dec_v1_entries_bounds(sub, (i - 1) as nat, v);
        assert(sub.skip(q - h.1 - e.1) =~= region.skip(q));
        assert(sub.skip(q - h.1 - e.1 + p1) =~= region.skip(q + p1));
        lemma_dec_v1_entries_fail2(sub, (i - 1) as nat, (n - 1) as nat, v, q - h.1 - e.1, name, p1);
    }
}

/// Unfolds a successful list parse one entry: the tail list parses in the
/// remainder with the same shape.
proof fn lemma_dec_v1_entries_unstep(region: Seq<u8>, i: nat, v: PakVersion)
    requires
        i > 0,
        dec_v1_entries(region, i, v) is Some,
    ensures
        dec_str(region) is Some,
        ({
            let h = dec_str(region)->Some_0;
            &&& dec_entry(region.skip(h.1), v) is Some
            &&& ({
                let e = dec_entry(region.skip(h.1), v)->Some_0;
                &&& dec_v1_entries(region.skip(h.1 + e.1), (i - 1) as nat, v) is Some
                &&& dec_v1_entries(region, i, v)->Some_0.1 == h.1 + e.1 + dec_v1_entries(
                    region.skip(h.1 + e.1),
                    (i - 1) as nat,
                    v,
                )->Some_0.1
                &&& dec_v1_entries(region, i, v)->Some_0.0 == seq![(h.0, e.0)] + dec_v1_entries(
                    region.skip(h.1 + e.1),
                    (i - 1) as nat,
                    v,
                )->Some_0.0
            })
        }),
{
}

/// Extends a successful prefix parse by one more parsed entry.
#[verifier::rlimit(100)]
#[verifier::spinoff_prover]
proof fn lemma_dec_v1_entries_step(
    region: Seq<u8>,
    i: nat,
    v: PakVersion,
    q: int,
    fv: Seq<(Seq<char>, PakEntryV)>,
    name: Seq<char>,
    ev: PakEntryV,
    qnew: int,
)
    requires
        dec_v1_entries(region, i, v) == Some((fv, q)),
        dec_str(region.skip(q)) is Some,
        dec_str(region.skip(q))->Some_0.0 == name,
        dec_entry(region.skip(q + dec_str(region.skip(q))->Some_0.1), v) is Some,
        dec_entry(region.skip(q + dec_str(region.skip(q))->Some_0.1), v)->Some_0.0 == ev,
        qnew == q + dec_str(region.skip(q))->Some_0.1 + dec_entry(
            region.skip(q + dec_str(region.skip(q))->Some_0.1),
            v,
        )->Some_0.1,
    ensures
        dec_v1_entries(region, i + 1, v) == Some((fv.push((name, ev)), qnew)),
    decreases i,
{
    let p1 = dec_str(region.skip(q))->Some_0.1;
    if i == 0 {
        assert(region.skip(0) =~= region);
        assert(q == 0);
        assert(region.skip(q) =~= region);
        assert(region.skip(p1) =~= region.skip(q).skip(p1));
        assert(region.skip(q + p1) =~= region.skip(p1));
        let e = dec_entry(region.skip(p1), v)->Some_0;
        assert(dec_v1_entries(region.skip(p1 + e.1), 0, v) == Some(
            (Seq::<(Seq<char>, PakEntryV)>::empty(), 0int),
        ));
        assert(fv.push((name, ev)) =~= seq![(name, ev)] + Seq::<(Seq<char>, PakEntryV)>::empty());
    } else {
        lemma_dec_v1_entries_unstep(region, i, v);
        let h = dec_str(region)->Some_0;
        let e0 = dec_entry(region.skip(h.1), v)->Some_0;
        let sub = region.skip(h.1 + e0.1);
        let subpair = dec_v1_entries(sub, (i - 1) as nat, v)->Some_0;
        lemma_dec_str_bounds(region);
        lemma_dec_entry_bounds(region.skip(h.1), v);
        lemma_dec_v1_entries_bounds(sub, (i - 1) as nat, v);
        assert(sub.skip(q - h.1 - e0.1) =~= region.skip(q));
        assert(sub.skip(q - h.1 - e0.1 + p1) =~= region.skip(q + p1));
        lemma_dec_v1_entries_step(
            sub,
            (i - 1) as nat,
            v,
            q - h.1 - e0.1,
            subpair.0,
            name,
            ev,
            qnew - h.1 - e0.1,
        );
        assert(fv =~= seq![(h.0, e0.0)] + subpair.0);
        assert(fv.push((name, ev)) =~= seq![(h.0, e0.0)] + subpair.0.push((name, ev)));
    }
}

} // verus!
