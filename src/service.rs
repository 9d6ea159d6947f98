//! Terminal services: a sandboxed file server and a canned response.
use vstd::prelude::*;

use vstd::string::StringExecFns;

use crate::response::{HttpResponse, Status};
use crate::text::{chars_of, find_from, first_index, same_seq, split_on};

verus! {

/// Serves files found under a root directory, refusing paths that leave it.
pub struct ServeFileService {
    pub root: String,
}

/// Always answers with the same response.
pub struct StaticResponseService {
    pub response: HttpResponse,
}

impl StaticResponseService {
    pub fn new(response: HttpResponse) -> (r: StaticResponseService)
        ensures
            r.response == response,
    {
        StaticResponseService { response }
    }

    /// The response handed out for every request.
    pub fn response(&self) -> (r: &HttpResponse)
        ensures
            *r == self.response,
    {
        &self.response
    }
}

/// Resolves path pieces against the directories entered so far: empty pieces
/// and `.` stay put, `..` leaves the last directory, anything else enters it.
/// `None` when a `..` finds no directory to leave.
pub open spec fn walk(stack: Seq<Seq<char>>, pieces: Seq<Seq<char>>) -> Option<Seq<Seq<char>>>
    decreases pieces.len(),
{
    if pieces.len() == 0 {
        Some(stack)
    } else {
        let s = pieces[0];
        if s.len() == 0 || s == seq!['.'] {
            walk(stack, pieces.drop_first())
        } else if s == seq!['.', '.'] {
            if stack.len() == 0 {
                None
            } else {
                walk(stack.drop_last(), pieces.drop_first())
            }
        } else {
            walk(stack.push(s), pieces.drop_first())
        }
    }
}

/// The root's own pieces after `stack`: every piece but empty ones and `.`.
pub open spec fn gather(stack: Seq<Seq<char>>, pieces: Seq<Seq<char>>) -> Seq<Seq<char>>
    decreases pieces.len(),
{
    if pieces.len() == 0 {
        stack
    } else if pieces[0].len() == 0 || pieces[0] == seq!['.'] {
        gather(stack, pieces.drop_first())
    } else {
        gather(stack.push(pieces[0]), pieces.drop_first())
    }
}

/// `root` followed by `/` and each of `stack` in turn.
pub open spec fn joined(root: Seq<char>, stack: Seq<Seq<char>>) -> Seq<char>
    decreases stack.len(),
{
    if stack.len() == 0 {
        root
    } else {
        joined(root, stack.drop_last()) + seq!['/'] + stack.last()
    }
}

/// The file a request path names under `root`: the root's pieces followed by the
/// request's are resolved, and the result must still begin with the root's pieces.
/// `None` when it does not (the path leaves the sandbox).
pub open spec fn sandboxed(root: Seq<char>, path: Seq<char>) -> Option<Seq<char>> {
    let base = gather(Seq::empty(), split_on(root, '/'));
    match walk(base, split_on(path, '/')) {
        Some(st) => if base.len() <= st.len() && st.subrange(0, base.len() as int) == base {
            Some(joined(root, st.subrange(base.len() as int, st.len() as int)))
        } else {
            None
        },
        None => None,
    }
}

/// The body of the answer to a path that leaves the sandbox.
pub open spec fn forbidden_body() -> Seq<char> {
    "403 Forbidden\n\nReason: Attempted to read a file outside the server sandbox!"@
}

/// A stack entry: a range of the root's characters (`true`) or of the path's.
pub open spec fn entry_view(rv: Seq<char>, pv: Seq<char>, e: (bool, usize, usize)) -> Seq<char> {
    if e.0 {
        rv.subrange(e.1 as int, e.2 as int)
    } else {
        pv.subrange(e.1 as int, e.2 as int)
    }
}

pub open spec fn entry_ok(rl: nat, pl: nat, e: (bool, usize, usize)) -> bool {
    e.1 <= e.2 && (if e.0 {
        e.2 <= rl
    } else {
        e.2 <= pl
    })
}

pub open spec fn stack_view(rv: Seq<char>, pv: Seq<char>, st: Seq<(bool, usize, usize)>) -> Seq<Seq<char>> {
    st.map_values(|e: (bool, usize, usize)| entry_view(rv, pv, e))
}

/// What serving a path takes: reading a file in the sandbox, or answering at once.
pub enum FileStep {
    Read(String),
    Answer(HttpResponse),
}

/// The characters of entry `e`.
fn entry_chars(rv: &Vec<char>, pv: &Vec<char>, e: (bool, usize, usize)) -> (r: Vec<char>)
    requires
        entry_ok(rv.len() as nat, pv.len() as nat, e),
    ensures
        r@ == entry_view(rv@, pv@, e),
{
    let src = if e.0 {
        rv
    } else {
        pv
    };
    let mut r: Vec<char> = Vec::new();
    let mut c = e.1;
    while c < e.2
        invariant
            e.1 <= c <= e.2 <= src.len(),
            r@ == src@.subrange(e.1 as int, c as int),
        decreases e.2 - c,
    {
        r.push(src[c]);
        c = c + 1;
        assert(r@ =~= src@.subrange(e.1 as int, c as int));
    }
    r
}

/// Pushes each piece of `v` that is neither empty nor `.` onto `st`, tagged `tag`.
fn gather_pieces(
    v: &Vec<char>,
    tag: bool,
    rv: &Vec<char>,
    pv: &Vec<char>,
    st: &mut Vec<(bool, usize, usize)>,
)
    requires
        (tag ==> v@ == rv@) && (!tag ==> v@ == pv@),
        forall|i: int| 0 <= i < old(st).len() ==> entry_ok(rv.len() as nat, pv.len() as nat, #[trigger] old(st)@[i]),
    ensures
        forall|i: int| 0 <= i < final(st).len() ==> entry_ok(rv.len() as nat, pv.len() as nat, #[trigger] final(st)@[i]),
        stack_view(rv@, pv@, final(st)@) == gather(stack_view(rv@, pv@, old(st)@), split_on(v@, '/')),
{
    let n = v.len();
    let mut from: usize = 0;
    let ghost first = stack_view(rv@, pv@, st@);
    assert(v@.subrange(0, n as int) =~= v@);
    loop
        invariant_except_break
            gather(first, split_on(v@, '/')) == gather(
                stack_view(rv@, pv@, st@),
                split_on(v@.subrange(from as int, n as int), '/'),
            ),
        invariant
            n == v.len(),
            (tag ==> v@ == rv@) && (!tag ==> v@ == pv@),
            from <= n,
            forall|i: int| 0 <= i < st.len() ==> entry_ok(rv.len() as nat, pv.len() as nat, #[trigger] st@[i]),
        ensures
            gather(first, split_on(v@, '/')) == stack_view(rv@, pv@, st@),
        decreases n - from,
    {
        let ghost s = v@.subrange(from as int, n as int);
        let ghost pieces = split_on(s, '/');
        let end = find_from(v, '/', from, n);
        let ghost piece = v@.subrange(from as int, end as int);
        assert(pieces[0] =~= piece);
        let ghost before = stack_view(rv@, pv@, st@);
        let len = end - from;
        if len == 0 || (len == 1 && v[from] == '.') {
            proof {
                if len == 1 {
                    assert(piece =~= seq!['.']);
                }
            }
        } else {
            proof {
                if len == 1 {
                    assert(piece != seq!['.']) by {
                        assert(piece[0] != seq!['.'][0]);
                    }
                }
            }
            let ghost old_st = st@;
            st.push((tag, from, end));
            assert forall|i: int| 0 <= i < st.len() implies entry_ok(rv.len() as nat, pv.len() as nat, #[trigger] st@[i]) by {
                if i < old_st.len() {
                    assert(st@[i] == old_st[i]);
                }
            }
            assert(stack_view(rv@, pv@, st@) =~= before.push(piece));
        }
        if end == n {
            assert(pieces =~= seq![s]);
            assert(s =~= piece);
            assert(pieces.drop_first().len() == 0);
            assert(gather(stack_view(rv@, pv@, st@), pieces.drop_first()) == stack_view(rv@, pv@, st@));
            break;
        }
        assert(pieces.drop_first() =~= split_on(v@.subrange(end + 1, n as int), '/')) by {
            assert(s.subrange(first_index(s, '/') as int + 1, s.len() as int) =~= v@.subrange(
                end + 1,
                n as int,
            ));
        }
        from = end + 1;
    }
}

impl ServeFileService {
    pub fn new(root: String) -> (r: ServeFileService)
        ensures
            r.root == root,
    {
        ServeFileService { root }
    }

    /// The file path for request path `path`, or `None` when the path leaves the root.
    pub fn locate(&self, path: &str) -> (r: Option<String>)
        ensures
            match sandboxed(self.root@, path@) {
                Some(f) => r is Some && r->0@ == f,
                None => r is None,
            },
    {
        let rv = chars_of(self.root.as_str());
        let pv = chars_of(path);
        let n = pv.len();
        let mut st: Vec<(bool, usize, usize)> = Vec::new();
        assert(stack_view(rv@, pv@, st@) =~= Seq::empty());
        gather_pieces(&rv, true, &rv, &pv, &mut st);
        let ghost base = stack_view(rv@, pv@, st@);
        let bl = st.len();
        let mut base_st: Vec<(bool, usize, usize)> = Vec::new();
        for i in 0..bl
            invariant
                bl == st.len(),
                base_st@ == st@.subrange(0, i as int),
        {
            base_st.push(st[i]);
            assert(base_st@ =~= st@.subrange(0, i + 1));
        }
        assert(base_st@ =~= st@);
        let mut from: usize = 0;
        assert(pv@.subrange(0, n as int) =~= path@);
        loop
            invariant_except_break
                walk(base, split_on(path@, '/')) == walk(
                    stack_view(rv@, pv@, st@),
                    split_on(pv@.subrange(from as int, n as int), '/'),
                ),
            invariant
                n == pv.len(),
                pv@ == path@,
                from <= n,
                base == stack_view(rv@, pv@, base_st@),
                base == gather(Seq::empty(), split_on(self.root@, '/')),
                forall|i: int| 0 <= i < st.len() ==> entry_ok(rv.len() as nat, pv.len() as nat, #[trigger] st@[i]),
                forall|i: int| 0 <= i < base_st.len() ==> entry_ok(rv.len() as nat, pv.len() as nat, #[trigger] base_st@[i]),
            ensures
                walk(base, split_on(path@, '/')) == Some(stack_view(rv@, pv@, st@)),
            decreases n - from,
        {
            let ghost s = pv@.subrange(from as int, n as int);
            let ghost pieces = split_on(s, '/');
            let end = find_from(&pv, '/', from, n);
            let ghost piece = pv@.subrange(from as int, end as int);
            assert(pieces[0] =~= piece);
            let ghost before = stack_view(rv@, pv@, st@);
            let len = end - from;
            if len == 0 || (len == 1 && pv[from] == '.') {
                proof {
                    if len == 1 {
                        assert(piece =~= seq!['.']);
                    }
                }
            } else if len == 2 && pv[from] == '.' && pv[from + 1] == '.' {
                assert(piece =~= seq!['.', '.']);
                if st.len() == 0 {
                    assert(before.len() == 0);
                    return None;
                }
                let ghost old_st = st@;
                st.pop();
                assert(st@ =~= old_st.drop_last());
                assert forall|i: int| 0 <= i < st.len() implies entry_ok(rv.len() as nat, pv.len() as nat, #[trigger] st@[i]) by {
                    assert(st@[i] == old_st[i]);
                }
                assert(stack_view(rv@, pv@, st@) =~= before.drop_last());
            } else {
                proof {
                    if len == 1 {
                        assert(piece != seq!['.']) by {
                            assert(piece[0] != seq!['.'][0]);
                        }
                    }
                    if len == 2 {
                        assert(piece != seq!['.', '.']) by {
                            if pv[from as int] != '.' {
                                assert(piece[0] != seq!['.', '.'][0]);
                            } else {
                                assert(piece[1] != seq!['.', '.'][1]);
                            }
                        }
                    }
                }
                let ghost old_st = st@;
                st.push((false, from, end));
                assert forall|i: int| 0 <= i < st.len() implies entry_ok(rv.len() as nat, pv.len() as nat, #[trigger] st@[i]) by {
                    if i < old_st.len() {
                        assert(st@[i] == old_st[i]);
                    }
                }
                assert(stack_view(rv@, pv@, st@) =~= before.push(piece));
            }
            if end == n {
                assert(pieces =~= seq![s]);
                assert(s =~= piece);
                assert(pieces.drop_first().len() == 0);
                assert(walk(stack_view(rv@, pv@, st@), pieces.drop_first()) == Some(stack_view(rv@, pv@, st@)));
                break;
            }
            assert(pieces.drop_first() =~= split_on(pv@.subrange(end + 1, n as int), '/')) by {
                assert(s.subrange(first_index(s, '/') as int + 1, s.len() as int) =~= pv@.subrange(
                    end + 1,
                    n as int,
                ));
            }
            from = end + 1;
        }
        let ghost stack = stack_view(rv@, pv@, st@);
        if st.len() < bl {
            return None;
        }
        let mut i: usize = 0;
        while i < bl
            invariant
                walk(base, split_on(path@, '/')) == Some(stack),
                base == gather(Seq::empty(), split_on(self.root@, '/')),
                bl == base_st.len() <= st.len(),
                i <= bl,
                stack == stack_view(rv@, pv@, st@),
                base == stack_view(rv@, pv@, base_st@),
                forall|j: int| 0 <= j < st.len() ==> entry_ok(rv.len() as nat, pv.len() as nat, #[trigger] st@[j]),
                forall|j: int| 0 <= j < base_st.len() ==> entry_ok(rv.len() as nat, pv.len() as nat, #[trigger] base_st@[j]),
                forall|j: int| 0 <= j < i ==> stack[j] == base[j],
            decreases bl - i,
        {
            let a = entry_chars(&rv, &pv, st[i]);
            let b = entry_chars(&rv, &pv, base_st[i]);
            if !same_seq(&a, &b) {
                assert(stack[i as int] != base[i as int]);
                assert(stack.subrange(0, bl as int)[i as int] == stack[i as int]);
                return None;
            }
            i = i + 1;
        }
        assert(stack.subrange(0, bl as int) =~= base);
        let ghost rest = stack.subrange(bl as int, stack.len() as int);
        let mut out = self.root.clone();
        let mut k: usize = bl;
        while k < st.len()
            invariant
                walk(base, split_on(path@, '/')) == Some(stack),
                base == gather(Seq::empty(), split_on(self.root@, '/')),
                stack.subrange(0, bl as int) == base,
                base.len() == bl,
                bl <= k <= st.len(),
                stack == stack_view(rv@, pv@, st@),
                rest == stack.subrange(bl as int, stack.len() as int),
                forall|j: int| 0 <= j < st.len() ==> entry_ok(rv.len() as nat, pv.len() as nat, #[trigger] st@[j]),
                out@ == joined(self.root@, rest.subrange(0, k - bl)),
            decreases st.len() - k,
        {
            let piece = entry_chars(&rv, &pv, st[k]);
            out.push('/');
            let mut c: usize = 0;
            let ghost start = out@;
            while c < piece.len()
                invariant
                    c <= piece.len(),
                    out@ == start + piece@.subrange(0, c as int),
                decreases piece.len() - c,
            {
                out.push(piece[c]);
                c = c + 1;
                assert(out@ =~= start + piece@.subrange(0, c as int));
            }
            assert(piece@.subrange(0, piece.len() as int) =~= piece@);
            assert(rest.subrange(0, k + 1 - bl).drop_last() =~= rest.subrange(0, k - bl));
            assert(rest.subrange(0, k + 1 - bl).last() == stack[k as int]);
            k = k + 1;
        }
        assert(rest.subrange(0, st.len() - bl) =~= rest);
        Some(out)
    }

    /// What serving `path` takes: the file to read, or the `403 Forbidden` answer
    /// when the path leaves the sandbox.
    pub fn plan(&self, path: &str) -> (r: FileStep)
        ensures
            match sandboxed(self.root@, path@) {
                Some(f) => r matches FileStep::Read(file) && file@ == f,
                None => r matches FileStep::Answer(resp) && resp.status == Status::Forbidden
                    && resp.body@ == forbidden_body() && resp.headers@.len() == 0,
            },
    {
        match self.locate(path) {
            Some(file) => FileStep::Read(file),
            None => FileStep::Answer(ServeFileService::forbidden()),
        }
    }

    /// The answer to a path that climbs out of the root: `403 Forbidden`.
    pub fn forbidden() -> (r: HttpResponse)
        ensures
            r.status == Status::Forbidden,
            r.body@ == forbidden_body(),
            r.headers@.len() == 0,
    {
        HttpResponse::new(
            Status::Forbidden,
            Vec::new(),
            String::from_str("403 Forbidden\n\nReason: Attempted to read a file outside the server sandbox!"),
        )
    }

    /// The answer to a read of the located file: `200 Ok` with its contents, or
    /// `404 Not Found` with the text of the read error.
    pub fn file_response(read: Result<String, String>) -> (r: HttpResponse)
        ensures
            read is Ok ==> r.status == Status::OK && r.body == read->Ok_0,
            read is Err ==> r.status == Status::NotFound && r.body == read->Err_0,
            r.headers@.len() == 0,
    {
        match read {
            Ok(contents) => HttpResponse::new(Status::OK, Vec::new(), contents),
            Err(err) => HttpResponse::new(Status::NotFound, Vec::new(), err),
        }
    }
}

} // verus!
