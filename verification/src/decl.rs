//! The declaration tree of a parsed source file, and the traversal that
//! lists every function-like declaration name in it: free functions,
//! methods inside implementation blocks, declarations inside nested
//! inline modules, and declarations nested inside function and method
//! bodies, all fully recursively.

use vstd::prelude::*;

verus! {

/// A member of an implementation block.
#[derive(Debug, PartialEq, Eq)]
pub enum Member {
    /// A method: its bare identifier, and the declarations nested in
    /// its body.
    Method(String, Vec<Decl>),
    /// Any member that is not a function.
    OtherMember,
}

/// One declaration of a source file.
#[derive(Debug, PartialEq, Eq)]
pub enum Decl {
    /// A free function: its bare identifier, and the declarations
    /// nested in its body.
    Function(String, Vec<Decl>),
    /// An implementation block and its members.
    ImplBlock(Vec<Member>),
    /// An inline module and the declarations inside it.
    Module(Vec<Decl>),
    /// Any declaration that declares no function-like item.
    OtherDecl,
}

/// The names a single member contributes: a method's own name, then
/// whatever is declared inside its body.
pub open spec fn member_names(m: Member) -> Seq<Seq<char>>
    decreases m,
{
    match m {
        Member::Method(name, nested) => seq![name@] + decls_names(nested@),
        Member::OtherMember => Seq::empty(),
    }
}

/// The names the members of an implementation block contribute, in order.
pub open spec fn members_names(ms: Seq<Member>) -> Seq<Seq<char>>
    decreases ms,
{
    if ms.len() == 0 {
        Seq::empty()
    } else {
        member_names(ms[0]) + members_names(ms.subrange(1, ms.len() as int))
    }
}

/// The names of every function-like declaration in `d`, in source order
/// and at any nesting depth.
pub open spec fn decl_names(d: Decl) -> Seq<Seq<char>>
    decreases d,
{
    match d {
        Decl::Function(name, nested) => seq![name@] + decls_names(nested@),
        Decl::ImplBlock(members) => members_names(members@),
        Decl::Module(decls) => decls_names(decls@),
        Decl::OtherDecl => Seq::empty(),
    }
}

/// The names of every function-like declaration in `ds`, in source order.
pub open spec fn decls_names(ds: Seq<Decl>) -> Seq<Seq<char>>
    decreases ds,
{
    if ds.len() == 0 {
        Seq::empty()
    } else {
        decl_names(ds[0]) + decls_names(ds.subrange(1, ds.len() as int))
    }
}

/// The views of a sequence of owned names.
pub open spec fn name_views(ss: Seq<String>) -> Seq<Seq<char>> {
    ss.map_values(|s: String| s@)
}

/// Listing names distributes over concatenation of member sequences.
pub proof fn lemma_members_names_concat(a: Seq<Member>, b: Seq<Member>)
    ensures
        members_names(a + b) == members_names(a) + members_names(b),
    decreases a.len(),
{
    if a.len() == 0 {
        assert(a + b =~= b);
        assert(members_names(a) + members_names(b) =~= members_names(b));
    } else {
        assert((a + b).subrange(1, (a + b).len() as int) =~= a.subrange(1, a.len() as int) + b);
        lemma_members_names_concat(a.subrange(1, a.len() as int), b);
        assert((a + b)[0] == a[0]);
        assert(member_names(a[0]) + (members_names(a.subrange(1, a.len() as int))
            + members_names(b)) =~= members_names(a) + members_names(b));
    }
}

/// Listing names distributes over concatenation of declaration sequences.
pub proof fn lemma_decls_names_concat(a: Seq<Decl>, b: Seq<Decl>)
    ensures
        decls_names(a + b) == decls_names(a) + decls_names(b),
    decreases a.len(),
{
    if a.len() == 0 {
        assert(a + b =~= b);
        assert(decls_names(a) + decls_names(b) =~= decls_names(b));
    } else {
        assert((a + b).subrange(1, (a + b).len() as int) =~= a.subrange(1, a.len() as int) + b);
        lemma_decls_names_concat(a.subrange(1, a.len() as int), b);
        assert((a + b)[0] == a[0]);
        assert(decl_names(a[0]) + (decls_names(a.subrange(1, a.len() as int)) + decls_names(b))
            =~= decls_names(a) + decls_names(b));
    }
}

/// A method inside an implementation block is discovered exactly as a
/// free function of the same name is: both contribute that name and
/// whatever their bodies declare.
pub proof fn lemma_nested_discovery(ms: Vec<Member>, name: String, body: Vec<Decl>)
    requires
        ms@ == seq![Member::Method(name, body)],
    ensures
        decl_names(Decl::ImplBlock(ms)) == decl_names(Decl::Function(name, body)),
{
    assert(ms@.subrange(1, ms@.len() as int) =~= Seq::<Member>::empty());
    assert(member_names(ms@[0]) + members_names(ms@.subrange(1, ms@.len() as int))
        =~= seq![name@] + decls_names(body@));
}

/// The names of a one-member sequence are that member's names.
pub proof fn lemma_members_names_one(m: Member)
    ensures
        members_names(seq![m]) == member_names(m),
{
    let s = seq![m];
    assert(s.subrange(1, s.len() as int) =~= Seq::<Member>::empty());
    assert(members_names(s.subrange(1, s.len() as int)) == Seq::<Seq<char>>::empty());
    assert(member_names(m) + Seq::<Seq<char>>::empty() =~= member_names(m));
}

/// The names of a one-declaration sequence are that declaration's names.
pub proof fn lemma_decls_names_one(d: Decl)
    ensures
        decls_names(seq![d]) == decl_names(d),
{
    let s = seq![d];
    assert(s.subrange(1, s.len() as int) =~= Seq::<Decl>::empty());
    assert(decls_names(s.subrange(1, s.len() as int)) == Seq::<Seq<char>>::empty());
    assert(decl_names(d) + Seq::<Seq<char>>::empty() =~= decl_names(d));
}

/// Appends to `out` the names of every function-like declaration in `d`,
/// in source order, descending into bodies, blocks and modules.
fn push_decl_names(d: &Decl, out: &mut Vec<String>)
    ensures
        name_views(final(out)@) == name_views(old(out)@) + decl_names(*d),
    decreases *d,
{
    match d {
        Decl::Function(name, nested) => {
            out.push(name.clone());
            let ghost mid = out@;
            proof {
                assert(name_views(mid) =~= name_views(old(out)@) + seq![name@]);
                assert(decreases_to!(*d => nested@)) by {
                    assert(d->Function_1 == *nested);
                    assert(decreases_to!(*d => d->Function_1));
                    assert(decreases_to!(d->Function_1 => nested@));
                }
            }
            push_decls_names(nested, out);
            proof {
                assert(name_views(out@) =~= name_views(old(out)@) + decl_names(*d));
            }
        },
        Decl::ImplBlock(members) => {
            let ghost out0 = out@;
            let mut k: usize = 0;
            while k < members.len()
                invariant
                    k <= members@.len(),
                    *d is ImplBlock,
                    d->ImplBlock_0 == *members,
                    name_views(out@) == name_views(out0) + members_names(
                        members@.subrange(0, k as int),
                    ),
                decreases members@.len() - k,
            {
                let ghost pre = members@.subrange(0, k as int);
                proof {
                    assert(decreases_to!(*d => members@[k as int])) by {
                        assert(d->ImplBlock_0 == *members);
                        assert(decreases_to!(*d => d->ImplBlock_0));
                        assert(decreases_to!(d->ImplBlock_0 => members@));
                        assert(decreases_to!(members@ => members@[k as int]));
                    }
                }
                push_member_names(&members[k], out);
                proof {
                    assert(members@.subrange(0, k as int + 1) =~= pre + seq![members@[k as int]]);
                    lemma_members_names_concat(pre, seq![members@[k as int]]);
                    lemma_members_names_one(members@[k as int]);
                    assert(name_views(out@) =~= name_views(out0) + members_names(
                        members@.subrange(0, k as int + 1),
                    ));
                }
                k += 1;
            }
            proof {
                assert(members@.subrange(0, members@.len() as int) =~= members@);
            }
        },
        Decl::Module(decls) => {
            proof {
                assert(decreases_to!(*d => decls@)) by {
                    assert(d->Module_0 == *decls);
                    assert(decreases_to!(*d => d->Module_0));
                    assert(decreases_to!(d->Module_0 => decls@));
                }
            }
            push_decls_names(decls, out);
            proof {
                assert(name_views(out@) =~= name_views(old(out)@) + decl_names(*d));
            }
        },
        Decl::OtherDecl => {
            proof {
                assert(name_views(out@) =~= name_views(old(out)@) + decl_names(*d));
            }
        },
    }
}

/// Appends to `out` the names a single member contributes: a method's
/// name, then whatever its body declares.
fn push_member_names(m: &Member, out: &mut Vec<String>)
    ensures
        name_views(final(out)@) == name_views(old(out)@) + member_names(*m),
    decreases *m,
{
    match m {
        Member::Method(name, nested) => {
            out.push(name.clone());
            let ghost mid = out@;
            proof {
                assert(name_views(mid) =~= name_views(old(out)@) + seq![name@]);
                assert(decreases_to!(*m => nested@)) by {
                    assert(m->Method_1 == *nested);
                    assert(decreases_to!(*m => m->Method_1));
                    assert(decreases_to!(m->Method_1 => nested@));
                }
            }
            push_decls_names(nested, out);
            proof {
                assert(name_views(out@) =~= name_views(old(out)@) + member_names(*m));
            }
        },
        Member::OtherMember => {
            proof {
                assert(name_views(out@) =~= name_views(old(out)@) + member_names(*m));
            }
        },
    }
}

/// Appends to `out` the names of every function-like declaration in
/// `ds`, in source order.
fn push_decls_names(ds: &Vec<Decl>, out: &mut Vec<String>)
    ensures
        name_views(final(out)@) == name_views(old(out)@) + decls_names(ds@),
    decreases ds@,
{
    let ghost out0 = out@;
    let mut k: usize = 0;
    while k < ds.len()
        invariant
            k <= ds@.len(),
            name_views(out@) == name_views(out0) + decls_names(ds@.subrange(0, k as int)),
        decreases ds@.len() - k,
    {
        let ghost pre = ds@.subrange(0, k as int);
        proof {
            assert(decreases_to!(ds@ => ds@[k as int]));
        }
        push_decl_names(&ds[k], out);
        proof {
            assert(ds@.subrange(0, k as int + 1) =~= pre + seq![ds@[k as int]]);
            lemma_decls_names_concat(pre, seq![ds@[k as int]]);
            lemma_decls_names_one(ds@[k as int]);
            assert(name_views(out@) =~= name_views(out0) + decls_names(
                ds@.subrange(0, k as int + 1),
            ));
        }
        k += 1;
    }
    proof {
        assert(ds@.subrange(0, ds@.len() as int) =~= ds@);
    }
}

/// The names of every function-like declaration of a file, in source
/// order: free functions, methods of implementation blocks, and the
/// same inside nested inline modules and inside function and method
/// bodies.
pub fn names_of_decls(decls: &Vec<Decl>) -> (r: Vec<String>)
    ensures
        name_views(r@) == decls_names(decls@),
{
    let mut out: Vec<String> = Vec::new();
    proof {
        assert(name_views(Seq::<String>::empty()) =~= Seq::<Seq<char>>::empty());
    }
    push_decls_names(decls, &mut out);
    proof {
        assert(name_views(out@) =~= decls_names(decls@));
    }
    out
}

} // verus!
