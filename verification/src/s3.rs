//! The upload coordinator's bookkeeping: chunk planning, the tracked
//! multipart uploads, part ordering for completion, and the batching of
//! bulk deletions.  The object-store calls themselves happen outside the
//! library, which only hands them plain values.

use vstd::prelude::*;

use std::collections::HashMap;

use crate::id::Uid;
use crate::nodes::uids_of;
use crate::purge::Purge;
use vstd::multiset::Multiset;
use vstd::string::StringExecFns;

verus! {

#[derive(PartialEq, Debug)]
pub enum Error {
    GenUploadId(String),
    GenPresignedUrls(String),
    DeleteFile(String),
    CompleteUpload(String),
    GetStatus(String, String),
}

/// One uploaded part, as the object store names it.
#[derive(PartialEq, Debug)]
pub struct S3Part {
    pub part_number: i32,
    pub e_tag: String,
}

#[verifier::ext_equal]
pub struct S3PartView {
    pub part_number: i32,
    pub e_tag: Seq<char>,
}

impl View for S3Part {
    type V = S3PartView;

    open spec fn view(&self) -> S3PartView {
        S3PartView { part_number: self.part_number, e_tag: self.e_tag@ }
    }
}

impl Clone for S3Part {
    fn clone(&self) -> (r: Self)
        ensures
            r@ == self@,
    {
        let r = S3Part { part_number: self.part_number, e_tag: self.e_tag.clone() };
        proof {
            assert(r@ =~= self@);
        }
        r
    }
}

/// What a started upload hands back to the client.
#[derive(PartialEq, Debug)]
pub struct NewUploadRes {
    pub id: String,
    pub chunk_urls: Vec<String>,
    pub chunk_size: i64,
    pub enc_alg: String,
}

#[derive(PartialEq, Debug)]
pub struct NewUploadReq {
    pub file_size: i64,
}

#[derive(PartialEq, Debug)]
pub enum UploadStatus {
    Pending { parts: Vec<S3Part> },
    Ready { url: String, content_length: i64 },
}

#[derive(PartialEq, Debug)]
pub struct UploadInfo {
    pub status: UploadStatus,
    pub enc_alg: String,
    pub chunk_size: i64,
}

/// A tracked multipart upload.
#[derive(PartialEq, Debug)]
pub struct Upload {
    pub enc_alg: String,
    pub upload_id: String,
    pub chunk_size: i64,
    pub complete: bool,
}

#[verifier::ext_equal]
pub struct UploadView {
    pub enc_alg: Seq<char>,
    pub upload_id: Seq<char>,
    pub chunk_size: i64,
    pub complete: bool,
}

impl View for Upload {
    type V = UploadView;

    open spec fn view(&self) -> UploadView {
        UploadView {
            enc_alg: self.enc_alg@,
            upload_id: self.upload_id@,
            chunk_size: self.chunk_size,
            complete: self.complete,
        }
    }
}

impl Clone for Upload {
    fn clone(&self) -> (r: Self)
        ensures
            r@ == self@,
    {
        let r = Upload {
            enc_alg: self.enc_alg.clone(),
            upload_id: self.upload_id.clone(),
            chunk_size: self.chunk_size,
            complete: self.complete,
        };
        proof {
            assert(r@ =~= self@);
        }
        r
    }
}

/// What finishing an upload hands in.
#[derive(PartialEq, Debug)]
pub struct FinishUpload {
    pub upload_id: String,
    pub parts: Vec<S3Part>,
}

/// The chunking of a file: size of each chunk and how many there are.
#[derive(PartialEq, Debug)]
pub struct PartitionPlan {
    pub chunk_size: i64,
    pub num_chunks: usize,
}

/// The chunk size a file of this size is cut into.
pub open spec fn chunk_size_for(file_size: int) -> int {
    if file_size < 50int * 1024 * 1024 {
        5int * 1024 * 1024
    } else if file_size < 500int * 1024 * 1024 {
        10int * 1024 * 1024
    } else {
        50int * 1024 * 1024
    }
}

/// Cuts a file into chunks: files under 50 MiB use 5 MiB chunks, under
/// 500 MiB use 10 MiB chunks, anything larger uses 50 MiB chunks; the
/// chunk count rounds the size up, and an empty file needs no chunk.
pub fn partition_file(file_size: i64) -> (r: PartitionPlan)
    requires
        0 <= file_size,
        file_size + 50 * 1024 * 1024 <= i64::MAX,
        (file_size + chunk_size_for(file_size as int) - 1) / chunk_size_for(file_size as int)
            <= usize::MAX,
    ensures
        r.chunk_size == chunk_size_for(file_size as int),
        r.num_chunks == (file_size + r.chunk_size - 1) as int / r.chunk_size as int,
{
    let chunk_size: i64 = if file_size < 50 * 1024 * 1024 {
        5 * 1024 * 1024
    } else if file_size < 500 * 1024 * 1024 {
        10 * 1024 * 1024
    } else {
        50 * 1024 * 1024
    };
    let num_chunks_i64: i64 = (file_size + chunk_size - 1) / chunk_size;
    proof {
        assert(0 <= num_chunks_i64 <= usize::MAX);
    }
    let num_chunks: usize = num_chunks_i64 as usize;
    PartitionPlan { chunk_size, num_chunks }
}

/// The spool path a file's content would live under, named by the
/// identifier's URL-safe Base64 text.
pub fn path_for_file_id(id: Uid) -> (r: String)
    ensures
        r@ == "./uploads/"@ + crate::id::uid_b64(id.0),
{
    let mut out = <String as StringExecFns>::from_str("./uploads/");
    let name = id.to_base64();
    out.append(name.as_str());
    proof {
        assert(out@ =~= "./uploads/"@ + crate::id::uid_b64(id.0));
    }
    out
}

/// The views of a list of parts.
pub open spec fn part_views(s: Seq<S3Part>) -> Seq<S3PartView> {
    Seq::new(s.len(), |i: int| s[i]@)
}

/// Sorts parts by ascending part number, keeping exactly the same parts.
pub fn sort_parts(parts: Vec<S3Part>) -> (r: Vec<S3Part>)
    ensures
        forall|i: int, j: int|
            0 <= i <= j < r@.len() ==> #[trigger] r@[i].part_number <= #[trigger] r@[j].part_number,
        part_views(r@).to_multiset() == part_views(parts@).to_multiset(),
{
    broadcast use vstd::seq_lib::group_to_multiset_ensures;

    let mut src = parts;
    let mut out: Vec<S3Part> = Vec::new();
    proof {
        assert(part_views(out@).to_multiset().add(part_views(src@).to_multiset()) =~= part_views(
            parts@,
        ).to_multiset()) by {
            assert(part_views(out@).to_multiset() =~= Multiset::<S3PartView>::empty());
            assert(part_views(src@) =~= part_views(parts@));
        }
    }
    while src.len() > 0
        invariant
            forall|i: int, j: int|
                0 <= i <= j < out@.len() ==> #[trigger] out@[i].part_number
                    <= #[trigger] out@[j].part_number,
            forall|i: int, j: int|
                0 <= i < out@.len() && 0 <= j < src@.len() ==> #[trigger] out@[i].part_number
                    <= #[trigger] src@[j].part_number,
            part_views(out@).to_multiset().add(part_views(src@).to_multiset()) == part_views(
                parts@,
            ).to_multiset(),
        decreases src@.len(),
    {
        // take out a part with the smallest number
        let mut best: usize = 0;
        let n = src.len();
        let mut k: usize = 1;
        while k < n
            invariant
                n == src@.len(),
                best < k <= n,
                forall|t: int|
                    0 <= t < k ==> src@[best as int].part_number <= #[trigger] src@[t].part_number,
            decreases n - k,
        {
            if src[k].part_number < src[best].part_number {
                best = k;
            }
            k = k + 1;
        }
        let ghost pre_src = src@;
        let ghost pre_out = out@;
        let picked = src.remove(best);
        out.push(picked);
        proof {
            assert(forall|t: int|
                0 <= t < pre_src.len() ==> picked.part_number <= #[trigger] pre_src[t].part_number);
            assert forall|i: int, j: int|
                0 <= i < out@.len() && 0 <= j < src@.len() implies #[trigger] out@[i].part_number
                <= #[trigger] src@[j].part_number by {
                if j < best {
                    assert(src@[j] == pre_src[j]);
                } else {
                    assert(src@[j] == pre_src[j + 1]);
                }
                if i < pre_out.len() {
                    assert(out@[i] == pre_out[i]);
                } else {
                    assert(out@[i] == picked);
                }
            }
            assert forall|i: int, j: int|
                0 <= i <= j < out@.len() implies #[trigger] out@[i].part_number
                <= #[trigger] out@[j].part_number by {
                if j < pre_out.len() {
                } else {
                    assert(out@[j] == picked);
                    if i < pre_out.len() {
                        assert(pre_src[best as int] == picked);
                    }
                }
            }
            // the moved part leaves `src`'s multiset and joins `out`'s
            assert(part_views(pre_src) =~= part_views(pre_src).take(best as int).push(picked@)
                + part_views(pre_src).skip(best + 1));
            assert(part_views(src@) =~= part_views(pre_src).take(best as int) + part_views(
                pre_src,
            ).skip(best + 1));
            assert(part_views(out@) =~= part_views(pre_out).push(picked@));
            lemma_multiset_mid(part_views(pre_src), picked@, best as int);
            assert(part_views(out@).to_multiset() =~= part_views(pre_out).push(
                picked@,
            ).to_multiset());
            vstd::seq_lib::to_multiset_build(part_views(pre_out), picked@);
            assert(part_views(pre_out).push(picked@).to_multiset() =~= part_views(
                pre_out,
            ).to_multiset().insert(picked@));
            assert(part_views(out@).to_multiset() =~= part_views(pre_out).to_multiset().insert(
                picked@,
            ));
            assert(part_views(pre_src).to_multiset() =~= part_views(src@).to_multiset().insert(
                picked@,
            ));
            assert(part_views(pre_out).to_multiset().insert(picked@).add(
                part_views(src@).to_multiset(),
            ) =~= part_views(pre_out).to_multiset().add(
                part_views(src@).to_multiset().insert(picked@),
            ));
            assert(part_views(out@).to_multiset().add(part_views(src@).to_multiset())
                =~= part_views(parts@).to_multiset());
        }
    }
    proof {
        assert(part_views(src@).to_multiset() =~= Multiset::<S3PartView>::empty()) by {
            assert(part_views(src@) =~= Seq::<S3PartView>::empty());
        }
        assert(part_views(out@).to_multiset() =~= part_views(parts@).to_multiset());
    }
    out
}

/// Removing the element at a position splits a sequence's multiset around
/// it.
proof fn lemma_multiset_mid(s: Seq<S3PartView>, x: S3PartView, at: int)
    requires
        0 <= at < s.len(),
        s == s.take(at).push(x) + s.skip(at + 1),
    ensures
        s.to_multiset() == (s.take(at) + s.skip(at + 1)).to_multiset().insert(x),
{
    broadcast use vstd::seq_lib::group_to_multiset_ensures;

    let a = s.take(at);
    let b = s.skip(at + 1);
    vstd::seq_lib::lemma_multiset_commutative(a.push(x), b);
    vstd::seq_lib::lemma_multiset_commutative(a, b);
    assert(a.push(x).to_multiset() =~= a.to_multiset().insert(x));
    assert(s.to_multiset() =~= (a + b).to_multiset().insert(x));
}

/// Splits identifiers into batches of at most 1000, full batches first, in
/// order: the object store accepts at most 1000 deletions per request.
pub fn delete_batches(ids: &Vec<Uid>) -> (r: Vec<Vec<Uid>>)
    ensures
        flat_ids(r@) == ids@,
        forall|i: int| 0 <= i < r@.len() ==> 0 < (#[trigger] r@[i])@.len() <= 1000,
        forall|i: int| 0 <= i < r@.len() - 1 ==> (#[trigger] r@[i])@.len() == 1000,
{
    let mut r: Vec<Vec<Uid>> = Vec::new();
    let n = ids.len();
    let mut i: usize = 0;
    proof {
        assert(flat_ids(r@) + ids@.skip(0) =~= ids@) by {
            assert(flat_ids(r@) =~= Seq::<Uid>::empty());
            assert(ids@.skip(0) =~= ids@);
        }
    }
    while i < n
        invariant
            n == ids@.len(),
            i <= n,
            flat_ids(r@) + ids@.skip(i as int) =~= ids@,
            flat_ids(r@).len() == i,
            forall|t: int| 0 <= t < r@.len() ==> 0 < (#[trigger] r@[t])@.len() <= 1000,
            forall|t: int|
                0 <= t < r@.len() ==> (#[trigger] r@[t])@.len() == 1000 || (t == r@.len() - 1 && i
                    == n),
        decreases n - i,
    {
        let take = if n - i < 1000 {
            n - i
        } else {
            1000
        };
        let mut batch: Vec<Uid> = Vec::new();
        let mut k: usize = 0;
        while k < take
            invariant
                n == ids@.len(),
                i + take <= n,
                k <= take,
                batch@.len() == k,
                forall|t: int| 0 <= t < k ==> batch@[t] == ids@[i + t],
            decreases take - k,
        {
            batch.push(ids[i + k]);
            k = k + 1;
        }
        let ghost pre_r = r@;
        r.push(batch);
        i = i + take;
        proof {
            lemma_flat_push(pre_r, r@[r@.len() - 1]);
            assert(r@.drop_last() =~= pre_r);
            assert(flat_ids(r@) =~= flat_ids(pre_r) + r@[r@.len() - 1]@);
            assert(flat_ids(r@) + ids@.skip(i as int) =~= ids@);
            assert forall|t: int| 0 <= t < r@.len() implies 0 < (#[trigger] r@[t])@.len()
                <= 1000 by {
                if t < pre_r.len() {
                    assert(r@[t] == pre_r[t]);
                }
            }
            assert forall|t: int| 0 <= t < r@.len() implies (#[trigger] r@[t])@.len() == 1000 || (t
                == r@.len() - 1 && i == n) by {
                if t < pre_r.len() {
                    assert(r@[t] == pre_r[t]);
                }
            }
        }
    }
    proof {
        assert(ids@.skip(n as int) =~= Seq::<Uid>::empty());
        assert(flat_ids(r@) + Seq::<Uid>::empty() =~= flat_ids(r@));
    }
    r
}

/// The concatenation of a list of identifier batches.
pub open spec fn flat_ids(s: Seq<Vec<Uid>>) -> Seq<Uid>
    decreases s.len(),
{
    if s.len() == 0 {
        Seq::empty()
    } else {
        flat_ids(s.drop_last()) + s.last()@
    }
}

proof fn lemma_flat_push(s: Seq<Vec<Uid>>, v: Vec<Uid>)
    ensures
        flat_ids(s.push(v)) == flat_ids(s) + v@,
{
    assert(s.push(v).drop_last() =~= s);
    assert(s.push(v).last() == v);
}

/// What dropping a list of tracked uploads does: each present id is
/// removed and reported, in the order given.
pub open spec fn drop_uploads(m: Map<u64, Upload>, ids: Seq<u64>) -> (Map<u64, Upload>, Seq<u64>)
    decreases ids.len(),
{
    if ids.len() == 0 {
        (m, Seq::empty())
    } else {
        let first = ids[0];
        if m.dom().contains(first) {
            let rest = drop_uploads(m.remove(first), ids.drop_first());
            (rest.0, seq![first] + rest.1)
        } else {
            drop_uploads(m, ids.drop_first())
        }
    }
}

/// The tracked multipart uploads, keyed by file id.
pub struct Uploads {
    pub uploads: HashMap<u64, Upload>,
}

/// The mathematical content of the upload map.
pub open spec fn uploads_view(m: Map<u64, Upload>) -> Map<u64, UploadView> {
    Map::new(|k: u64| m.dom().contains(k), |k: u64| m[k]@)
}

impl Uploads {
    /// Registers a fresh upload under the file id and hands back the
    /// encryption algorithm it is to use.
    pub fn add(&mut self, file_id: Uid, upload_id: String, chunk_size: i64) -> (r: String)
        ensures
            r@ == "aes-gcm"@,
            uploads_view(final(self).uploads@) == uploads_view(old(self).uploads@).insert(
                file_id.0,
                UploadView {
                    enc_alg: "aes-gcm"@,
                    upload_id: upload_id@,
                    chunk_size: chunk_size,
                    complete: false,
                },
            ),
    {
        let upload = Upload {
            enc_alg: String::from_str("aes-gcm"),
            upload_id,
            chunk_size,
            complete: false,
        };
        let ghost uv = upload@;
        self.uploads.insert(file_id.0, upload);
        proof {
            assert(uploads_view(self.uploads@) =~= uploads_view(old(self).uploads@).insert(
                file_id.0,
                uv,
            ));
        }
        String::from_str("aes-gcm")
    }

    /// The tracked upload of a file, if any.
    pub fn get(&self, file_id: Uid) -> (r: Option<&Upload>)
        ensures
            match r {
                Some(u) => self.uploads@.dom().contains(file_id.0) && *u
                    == self.uploads@[file_id.0],
                None => !self.uploads@.dom().contains(file_id.0),
            },
    {
        self.uploads.get(&file_id.0)
    }

    /// Drops the tracked uploads of the given files, reporting which were
    /// present, in order.
    pub fn remove(&mut self, file_ids: &[Uid]) -> (r: Vec<Uid>)
        ensures
            ({
                let d = drop_uploads(old(self).uploads@, uids_of(file_ids@));
                &&& final(self).uploads@ == d.0
                &&& uids_of(r@) == d.1
            }),
    {
        let mut r: Vec<Uid> = Vec::new();
        let n = file_ids.len();
        let mut i: usize = 0;
        proof {
            assert(uids_of(file_ids@).skip(0) =~= uids_of(file_ids@));
        }
        while i < n
            invariant
                n == file_ids@.len(),
                i <= n,
                ({
                    let d = drop_uploads(old(self).uploads@, uids_of(file_ids@));
                    let rec = drop_uploads(self.uploads@, uids_of(file_ids@).skip(i as int));
                    &&& d.0 == rec.0
                    &&& d.1 == uids_of(r@) + rec.1
                }),
            decreases n - i,
        {
            let ghost pre_m = self.uploads@;
            let ghost pre_r = r@;
            let id = file_ids[i];
            let removed = self.uploads.remove(&id.0);
            match removed {
                Some(_) => {
                    r.push(id);
                },
                None => {
                    proof {
                        assert(self.uploads@ =~= pre_m);
                    }
                },
            }
            i = i + 1;
            proof {
                let l = uids_of(file_ids@);
                assert(l.skip(i - 1)[0] == l[i - 1]);
                assert(l[i - 1] == id.0);
                assert(l.skip(i - 1).drop_first() =~= l.skip(i as int));
                if pre_m.dom().contains(id.0) {
                    assert(uids_of(r@) =~= uids_of(pre_r) + seq![id.0]);
                    let rec = drop_uploads(self.uploads@, l.skip(i as int));
                    assert(uids_of(pre_r) + (seq![id.0] + rec.1) =~= uids_of(r@) + rec.1);
                } else {
                    assert(uids_of(r@) =~= uids_of(pre_r));
                }
            }
        }
        proof {
            assert(uids_of(file_ids@).skip(n as int) =~= Seq::<u64>::empty());
            assert(uids_of(r@) + Seq::<u64>::empty() =~= uids_of(r@));
        }
        r
    }

    /// Marks a tracked upload complete; reports whether it was tracked.
    pub fn mark_as_complete(&mut self, file_id: Uid) -> (r: bool)
        ensures
            r == old(self).uploads@.dom().contains(file_id.0),
            r ==> uploads_view(final(self).uploads@) == uploads_view(old(self).uploads@).insert(
                file_id.0,
                UploadView { complete: true, ..old(self).uploads@[file_id.0]@ },
            ),
            !r ==> final(self).uploads@ == old(self).uploads@,
    {
        match self.uploads.remove(&file_id.0) {
            Some(u) => {
                let updated = Upload {
                    enc_alg: u.enc_alg,
                    upload_id: u.upload_id,
                    chunk_size: u.chunk_size,
                    complete: true,
                };
                let ghost uv = updated@;
                self.uploads.insert(file_id.0, updated);
                proof {
                    assert(uploads_view(self.uploads@) =~= uploads_view(
                        old(self).uploads@,
                    ).insert(file_id.0, uv));
                }
                true
            },
            None => {
                proof {
                    assert(self.uploads@ =~= old(self).uploads@);
                }
                false
            },
        }
    }
}

impl Purge for Uploads {
    open spec fn pristine(&self) -> bool {
        self.uploads@ == Map::<u64, Upload>::empty()
    }

    fn new() -> (r: Self) {
        Uploads { uploads: HashMap::new() }
    }

    fn purge(&mut self) {
        self.uploads = HashMap::new();
    }
}

} // verus!
