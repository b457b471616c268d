use vstd::prelude::*;

verus! {

/// The bytes of `important`.
pub open spec fn kw_important() -> Seq<u8> {
    seq![105u8, 109u8, 112u8, 111u8, 114u8, 116u8, 97u8, 110u8, 116u8]
}

pub fn is_kw_important(t: &[u8]) -> (r: bool)
    ensures
        r == (t@ == kw_important()),
{
    let r = t.len() == 9 && t[0] == 105 && t[1] == 109 && t[2] == 112 && t[3] == 111 && t[4] == 114 && t[5] == 116 && t[6] == 97 && t[7] == 110 && t[8] == 116;
    proof {
        if r { assert(t@ =~= kw_important()); }
        if t@ == kw_important() { assert(t@.len() == 9); }
    }
    r
}

/// The bytes of `third-party`.
pub open spec fn kw_third_party() -> Seq<u8> {
    seq![116u8, 104u8, 105u8, 114u8, 100u8, 45u8, 112u8, 97u8, 114u8, 116u8, 121u8]
}

pub fn is_kw_third_party(t: &[u8]) -> (r: bool)
    ensures
        r == (t@ == kw_third_party()),
{
    let r = t.len() == 11 && t[0] == 116 && t[1] == 104 && t[2] == 105 && t[3] == 114 && t[4] == 100 && t[5] == 45 && t[6] == 112 && t[7] == 97 && t[8] == 114 && t[9] == 116 && t[10] == 121;
    proof {
        if r { assert(t@ =~= kw_third_party()); }
        if t@ == kw_third_party() { assert(t@.len() == 11); }
    }
    r
}

/// The bytes of `domain=`.
pub open spec fn kw_domain_eq() -> Seq<u8> {
    seq![100u8, 111u8, 109u8, 97u8, 105u8, 110u8, 61u8]
}

pub fn is_kw_domain_eq(t: &[u8]) -> (r: bool)
    ensures
        r == (t@ == kw_domain_eq()),
{
    let r = t.len() == 7 && t[0] == 100 && t[1] == 111 && t[2] == 109 && t[3] == 97 && t[4] == 105 && t[5] == 110 && t[6] == 61;
    proof {
        if r { assert(t@ =~= kw_domain_eq()); }
        if t@ == kw_domain_eq() { assert(t@.len() == 7); }
    }
    r
}

/// The bytes of `script`.
pub open spec fn kw_script() -> Seq<u8> {
    seq![115u8, 99u8, 114u8, 105u8, 112u8, 116u8]
}

pub fn is_kw_script(t: &[u8]) -> (r: bool)
    ensures
        r == (t@ == kw_script()),
{
    let r = t.len() == 6 && t[0] == 115 && t[1] == 99 && t[2] == 114 && t[3] == 105 && t[4] == 112 && t[5] == 116;
    proof {
        if r { assert(t@ =~= kw_script()); }
        if t@ == kw_script() { assert(t@.len() == 6); }
    }
    r
}

/// The bytes of `image`.
pub open spec fn kw_image() -> Seq<u8> {
    seq![105u8, 109u8, 97u8, 103u8, 101u8]
}

pub fn is_kw_image(t: &[u8]) -> (r: bool)
    ensures
        r == (t@ == kw_image()),
{
    let r = t.len() == 5 && t[0] == 105 && t[1] == 109 && t[2] == 97 && t[3] == 103 && t[4] == 101;
    proof {
        if r { assert(t@ =~= kw_image()); }
        if t@ == kw_image() { assert(t@.len() == 5); }
    }
    r
}

/// The bytes of `stylesheet`.
pub open spec fn kw_stylesheet() -> Seq<u8> {
    seq![115u8, 116u8, 121u8, 108u8, 101u8, 115u8, 104u8, 101u8, 101u8, 116u8]
}

pub fn is_kw_stylesheet(t: &[u8]) -> (r: bool)
    ensures
        r == (t@ == kw_stylesheet()),
{
    let r = t.len() == 10 && t[0] == 115 && t[1] == 116 && t[2] == 121 && t[3] == 108 && t[4] == 101 && t[5] == 115 && t[6] == 104 && t[7] == 101 && t[8] == 101 && t[9] == 116;
    proof {
        if r { assert(t@ =~= kw_stylesheet()); }
        if t@ == kw_stylesheet() { assert(t@.len() == 10); }
    }
    r
}

/// The bytes of `xmlhttprequest`.
pub open spec fn kw_xmlhttprequest() -> Seq<u8> {
    seq![120u8, 109u8, 108u8, 104u8, 116u8, 116u8, 112u8, 114u8, 101u8, 113u8, 117u8, 101u8, 115u8, 116u8]
}

pub fn is_kw_xmlhttprequest(t: &[u8]) -> (r: bool)
    ensures
        r == (t@ == kw_xmlhttprequest()),
{
    let r = t.len() == 14 && t[0] == 120 && t[1] == 109 && t[2] == 108 && t[3] == 104 && t[4] == 116 && t[5] == 116 && t[6] == 112 && t[7] == 114 && t[8] == 101 && t[9] == 113 && t[10] == 117 && t[11] == 101 && t[12] == 115 && t[13] == 116;
    proof {
        if r { assert(t@ =~= kw_xmlhttprequest()); }
        if t@ == kw_xmlhttprequest() { assert(t@.len() == 14); }
    }
    r
}

/// The bytes of `document`.
pub open spec fn kw_document() -> Seq<u8> {
    seq![100u8, 111u8, 99u8, 117u8, 109u8, 101u8, 110u8, 116u8]
}

pub fn is_kw_document(t: &[u8]) -> (r: bool)
    ensures
        r == (t@ == kw_document()),
{
    let r = t.len() == 8 && t[0] == 100 && t[1] == 111 && t[2] == 99 && t[3] == 117 && t[4] == 109 && t[5] == 101 && t[6] == 110 && t[7] == 116;
    proof {
        if r { assert(t@ =~= kw_document()); }
        if t@ == kw_document() { assert(t@.len() == 8); }
    }
    r
}

/// The bytes of `subdocument`.
pub open spec fn kw_subdocument() -> Seq<u8> {
    seq![115u8, 117u8, 98u8, 100u8, 111u8, 99u8, 117u8, 109u8, 101u8, 110u8, 116u8]
}

pub fn is_kw_subdocument(t: &[u8]) -> (r: bool)
    ensures
        r == (t@ == kw_subdocument()),
{
    let r = t.len() == 11 && t[0] == 115 && t[1] == 117 && t[2] == 98 && t[3] == 100 && t[4] == 111 && t[5] == 99 && t[6] == 117 && t[7] == 109 && t[8] == 101 && t[9] == 110 && t[10] == 116;
    proof {
        if r { assert(t@ =~= kw_subdocument()); }
        if t@ == kw_subdocument() { assert(t@.len() == 11); }
    }
    r
}

/// The bytes of `font`.
pub open spec fn kw_font() -> Seq<u8> {
    seq![102u8, 111u8, 110u8, 116u8]
}

pub fn is_kw_font(t: &[u8]) -> (r: bool)
    ensures
        r == (t@ == kw_font()),
{
    let r = t.len() == 4 && t[0] == 102 && t[1] == 111 && t[2] == 110 && t[3] == 116;
    proof {
        if r { assert(t@ =~= kw_font()); }
        if t@ == kw_font() { assert(t@.len() == 4); }
    }
    r
}

/// The bytes of `media`.
pub open spec fn kw_media() -> Seq<u8> {
    seq![109u8, 101u8, 100u8, 105u8, 97u8]
}

pub fn is_kw_media(t: &[u8]) -> (r: bool)
    ensures
        r == (t@ == kw_media()),
{
    let r = t.len() == 5 && t[0] == 109 && t[1] == 101 && t[2] == 100 && t[3] == 105 && t[4] == 97;
    proof {
        if r { assert(t@ =~= kw_media()); }
        if t@ == kw_media() { assert(t@.len() == 5); }
    }
    r
}

/// The bytes of `websocket`.
pub open spec fn kw_websocket() -> Seq<u8> {
    seq![119u8, 101u8, 98u8, 115u8, 111u8, 99u8, 107u8, 101u8, 116u8]
}

pub fn is_kw_websocket(t: &[u8]) -> (r: bool)
    ensures
        r == (t@ == kw_websocket()),
{
    let r = t.len() == 9 && t[0] == 119 && t[1] == 101 && t[2] == 98 && t[3] == 115 && t[4] == 111 && t[5] == 99 && t[6] == 107 && t[7] == 101 && t[8] == 116;
    proof {
        if r { assert(t@ =~= kw_websocket()); }
        if t@ == kw_websocket() { assert(t@.len() == 9); }
    }
    r
}

/// The bytes of `other`.
pub open spec fn kw_other() -> Seq<u8> {
    seq![111u8, 116u8, 104u8, 101u8, 114u8]
}

pub fn is_kw_other(t: &[u8]) -> (r: bool)
    ensures
        r == (t@ == kw_other()),
{
    let r = t.len() == 5 && t[0] == 111 && t[1] == 116 && t[2] == 104 && t[3] == 101 && t[4] == 114;
    proof {
        if r { assert(t@ =~= kw_other()); }
        if t@ == kw_other() { assert(t@.len() == 5); }
    }
    r
}


/// The bytes of `domain=` as a vector.
pub fn kw_domain_eq_v() -> (v: Vec<u8>)
    ensures
        v@ == kw_domain_eq(),
{
    let mut v: Vec<u8> = Vec::new();
    v.push(100u8);
    v.push(111u8);
    v.push(109u8);
    v.push(97u8);
    v.push(105u8);
    v.push(110u8);
    v.push(61u8);
    proof {
        assert(v@ =~= kw_domain_eq());
    }
    v
}

} // verus!

