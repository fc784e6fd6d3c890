use vstd::prelude::*;

use crate::contents::{
    Target, TargetM, lemma_assoc_find, lemma_map_view, map_view, pair_view, strs_view,
    tags_of_texts, target_view, targets_view,
};
use crate::strutil::push_char;
use crate::xml::{
    add_attribute, add_attribute_spec, add_tag, add_tag_with_attribute, add_tag_with_attribute_spec,
};

verus! {

use vstd::string::StrSliceExecFns;
use vstd::string::StringExecFns;

/// What a string folds to in lower case, as str::to_lowercase defines it: a
/// function of the characters alone.
pub uninterp spec fn lower_of(s: Seq<char>) -> Seq<char>;

/// Relies on str::to_lowercase: the lowercase form of the string, which
/// depends on its characters alone.
#[verifier::external_body]
fn to_lowercase(s: &str) -> (r: String)
    ensures
        r@ == lower_of(s@),
{
    s.to_lowercase()
}

/// The pieces of `s` between its commas, in order.
pub open spec fn split_state(s: Seq<char>) -> (Seq<Seq<char>>, Seq<char>)
    decreases s.len(),
{
    if s.len() == 0 {
        (Seq::empty(), Seq::empty())
    } else {
        let r = split_state(s.drop_last());
        if s.last() == ',' {
            (r.0.push(r.1), Seq::empty())
        } else {
            (r.0, r.1.push(s.last()))
        }
    }
}

pub open spec fn split_commas_spec(s: Seq<char>) -> Seq<Seq<char>> {
    split_state(s).0.push(split_state(s).1)
}

/// Split a comma-joined list into its pieces.
fn split_commas(s: &str) -> (r: Vec<String>)
    ensures
        strs_view(r@) == split_commas_spec(s@),
{
    let mut parts: Vec<String> = Vec::new();
    let mut cur = String::new();
    proof {
        assert(s@.take(0) =~= Seq::<char>::empty());
        assert(strs_view(parts@) =~= Seq::<Seq<char>>::empty());
    }
    let n = s.unicode_len();
    let mut i: usize = 0;
    while i < n
        invariant
            n == s@.len(),
            i <= n,
            strs_view(parts@) == split_state(s@.take(i as int)).0,
            cur@ == split_state(s@.take(i as int)).1,
        decreases n - i,
    {
        let c = s.get_char(i);
        proof {
            assert(s@.take(i + 1).drop_last() =~= s@.take(i as int));
            assert(s@.take(i + 1).last() == s@[i as int]);
        }
        if c == ',' {
            let ghost p0 = parts@;
            let ghost c0 = cur@;
            parts.push(cur);
            cur = String::new();
            proof {
                assert(strs_view(parts@) =~= strs_view(p0).push(c0));
            }
        } else {
            push_char(&mut cur, c);
        }
        i += 1;
    }
    proof {
        assert(s@.take(n as int) =~= s@);
    }
    let ghost p0 = parts@;
    let ghost c0 = cur@;
    parts.push(cur);
    proof {
        assert(strs_view(parts@) =~= strs_view(p0).push(c0));
    }
    parts
}

/// One entry of the per-element attribute table.
pub open spec fn ea(k: Seq<char>, v: Seq<char>) -> (Seq<char>, Seq<Seq<char>>) {
    (k, split_commas_spec(v))
}

fn ea_exec(k: &str, v: &str) -> (r: (String, Vec<String>))
    ensures
        pair_view(r) == ea(k@, v@),
{
    (k.to_owned(), split_commas(v))
}

/// The global attributes that any element may carry.
pub open spec fn globals_spec() -> Seq<Seq<char>> {
    split_commas_spec(
        "class,id,slot,accesskey,autocapitalize,autofocus,contenteditable,dir,draggable,enterkeyhint,hidden,inputmode,is,itemid,itemprop,itemref,itemscope,itemtype,lang,nonce,spellcheck,style,tabindex,title,translate"@,
    )
}

/// The event-handler attribute names.
pub open spec fn event_handler_spec() -> Seq<Seq<char>> {
    split_commas_spec(
        "onabort,onauxclick,onblur,oncancel,oncanplay,oncanplaythrough,onchange,onclick,onclose,oncontextmenu,oncopy,oncuechange,oncut,ondblclick,ondrag,ondragend,ondragenter,ondragexit,ondragleave,ondragover,ondragstart,ondrop,ondurationchange,onemptied,onended,onerror,onfocus,onformdata,oninput,oninvalid,onkeydown,onkeypress,onkeyup,onload,onloadeddata,onloadedmetadata,onloadstart,onmousedown,onmouseenter,onmouseleave,onmousemove,onmouseout,onmouseover,onmouseup,onpaste,onpause,onplay,onplaying,onprogress,onratechange,onreset,onresize,onscroll,onsecuritypolicyviolation,onseeked,onseeking,onselect,onslotchange,onstalled,onsubmit,onsuspend,ontimeupdate,ontoggle,onvolumechange,onwaiting,onwheel"@,
    )
}

/// The attributes each element may carry, by element name.
pub open spec fn element_attributes_spec() -> Seq<(Seq<char>, Seq<Seq<char>>)> {
    seq![
        ea("a"@, "href,target,download,ping,rel,hreflang,type,referrerpolicy"@),
        ea("area"@, "alt,coords,shape,href,target,download,ping,rel,referrerpolicy"@),
        ea("audio"@, "src,crossorigin,preload,autoplay,loop,muted,controls"@),
        ea("base"@, "href,target"@),
        ea("blockquote"@, "cite"@),
        ea(
            "body"@,
            "onafterprint,onbeforeprint,onbeforeunload,onhashchange,onlanguagechange,onmessage,onmessageerror,onoffline,ononline,onpagehide,onpageshow,onpopstate,onrejectionhandled,onstorage,onunhandledrejection,onunload"@,
        ),
        ea(
            "button"@,
            "disabled,form,formaction,formenctype,formmethod,formnovalidate,formtarget,name,type,value"@,
        ),
        ea("canvas"@, "width,height"@),
        ea("col"@, "span"@),
        ea("colgroup"@, "span"@),
        ea("data"@, "value"@),
        ea("del"@, "cite,datetime"@),
        ea("details"@, "open"@),
        ea("dialog"@, "open"@),
        ea("embed"@, "src,type,width,height"@),
        ea("fieldset"@, "disabled,form,name"@),
        ea("form"@, "accept-charset,action,autocomplete,enctype,method,name,novalidate,target"@),
        ea("html"@, "manifest"@),
        ea(
            "iframe"@,
            "src,srcdoc,name,sandbox,allow,allowfullscreen,allowpaymentrequest,width,height,referrerpolicy,loading"@,
        ),
        ea(
            "img"@,
            "alt,src,srcset,sizes,crossorigin,usemap,ismap,width,height,referrerpolicy,decoding,loading"@,
        ),
        ea(
            "input"@,
            "accept,alt,autocomplete,checked,dirname,disabled,form,formaction,formenctype,formmethod ,formnovalidate,formtarget,height,list,max,maxlength ,min,minlength,multiple,name,pattern,placeholder,readonly,required,size,src,step,type,value,width"@,
        ),
        ea("ins"@, "cite,datetime"@),
        ea("label"@, "for"@),
        ea("li"@, "value"@),
        ea(
            "link"@,
            "href,crossorigin,rel,as,media,hreflang,type,sizes,imagesrcset,imagesizes,referrerpolicy,integrity,color,disabled"@,
        ),
        ea("map"@, "name"@),
        ea("meta"@, "name,http-equiv,content,charset"@),
        ea("meter"@, "value,min,max,low,high,optimum"@),
        ea("object"@, "data,type,name,usemap,form,width,height"@),
        ea("ol"@, "reversed,start,type"@),
        ea("optgroup"@, "disabled,label"@),
        ea("option"@, "disabled,label,selected,value"@),
        ea("output"@, "for,form,name"@),
        ea("param"@, "name,value"@),
        ea("progress"@, "value,max"@),
        ea("q"@, "cite"@),
        ea("script"@, "src,type,async,defer,crossorigin,integrity,referrerpolicy"@),
        ea("select"@, "autocomplete,disabled,form,multiple,name,required,size"@),
        ea("slot"@, "name"@),
        ea("source"@, "src,type,srcset,sizes,media"@),
        ea("style"@, "media"@),
        ea("td"@, "colspan,rowspan,headers"@),
        ea(
            "textarea"@,
            "cols,dirname,disabled,form,maxlength,minlength,name,placeholder,readonly,required,rows,wrap"@,
        ),
        ea("th"@, "colspan,rowspan,headers,scope,abbr"@),
        ea("time"@, "datetime"@),
        ea("track"@, "default,kind,label,src,srclang"@),
        ea(
            "video"@,
            "src,crossorigin,poster,preload,autoplay,playsinline,loop,muted,controls,width,height"@,
        ),
    ]
}

/// A `data-`-prefixed custom attribute name.
pub open spec fn is_data_attr(name: Seq<char>) -> bool {
    name.len() >= 5 && name.take(5) == "data-"@
}

/// A global attribute, an event-handler attribute, or a custom data
/// attribute.
pub open spec fn is_attr_spec(name: Seq<char>) -> bool {
    globals_spec().contains(name) || event_handler_spec().contains(name) || is_data_attr(name)
}

/// The one fixed override: within a `head` element, a child named `title`
/// is always an element, never an attribute.
pub open spec fn is_element_spec(element: Seq<char>, s: Seq<char>) -> bool {
    element == "head"@ && s == "title"@
}

/// Whether `s` is an attribute of the element named `element` (compared in
/// lower case) in the per-element table.
pub open spec fn is_element_attr_spec(element: Seq<char>, s: Seq<char>) -> bool {
    let f = crate::contents::assoc_find(element_attributes_spec(), lower_of(element));
    f >= 0 && element_attributes_spec()[f].1.contains(s)
}

/// The markup of one target: one element per text value; each child that
/// classifies as an attribute becomes `name="texts"` on the wrapping
/// element's opening tag, every other child nests inside it; the wrapping
/// element appears only when it would carry an attribute or content.
pub open spec fn html_of_target(t: TargetM) -> Seq<char>
    decreases t, 1nat,
{
    let p = html_children(t.name, t.value);
    tags_of_texts(t.name, t.text) + (if p.0.len() > 0 || p.1.len() > 0 {
        add_tag_with_attribute_spec(t.name, p.0, p.1)
    } else {
        Seq::empty()
    })
}

/// The attribute text and the nested markup contributed by the children of
/// an element with the given name.
pub open spec fn html_children(name: Seq<char>, ts: Seq<TargetM>) -> (Seq<char>, Seq<char>)
    decreases ts, 0nat,
{
    if ts.len() == 0 {
        (Seq::empty(), Seq::empty())
    } else {
        let r = html_children(name, ts.drop_last());
        let c = ts.last();
        if (is_attr_spec(c.name) && !is_element_spec(name, c.name)) || is_element_attr_spec(
            name,
            c.name,
        ) {
            (r.0 + add_attribute_spec(c.name, c.text), r.1)
        } else {
            (r.0, r.1 + html_of_target(c))
        }
    }
}

/// Whether one of the strings is `s`.
fn contains_str(v: &Vec<String>, s: &str) -> (r: bool)
    ensures
        r == strs_view(v@).contains(s@),
{
    let owned = s.to_owned();
    let mut j: usize = 0;
    while j < v.len()
        invariant
            j <= v@.len(),
            owned@ == s@,
            forall|j2: int| 0 <= j2 < j ==> (#[trigger] strs_view(v@)[j2]) != s@,
        decreases v@.len() - j,
    {
        if v[j] == owned {
            proof {
                assert(strs_view(v@)[j as int] == s@);
            }
            return true;
        }
        j += 1;
    }
    proof {
        assert(!strs_view(v@).contains(s@));
    }
    false
}

/// The special-case child that stays an element.
fn is_element(element: &str, s: &str) -> (r: bool)
    ensures
        r == is_element_spec(element@, s@),
{
    element.to_owned() == String::from_str("head") && s.to_owned() == String::from_str("title")
}

/// Converts a target to HTML markup, classifying children as attributes or
/// nested elements against the fixed attribute tables.
pub struct Converter {
    globals: Vec<String>,
    event_handler: Vec<String>,
    element_attributes: Vec<(String, Vec<String>)>,
}

impl Converter {
    /// The converter holds exactly the fixed attribute tables.
    pub closed spec fn wf(&self) -> bool {
        strs_view(self.globals@) == globals_spec() && strs_view(self.event_handler@)
            == event_handler_spec() && map_view(self.element_attributes@)
            == element_attributes_spec()
    }

    /// A converter with the fixed attribute tables.
    pub fn new() -> (c: Converter)
        ensures
            c.wf(),
    {
        let globals = split_commas(
            "class,id,slot,accesskey,autocapitalize,autofocus,contenteditable,dir,draggable,enterkeyhint,hidden,inputmode,is,itemid,itemprop,itemref,itemscope,itemtype,lang,nonce,spellcheck,style,tabindex,title,translate",
        );
        let event_handler = split_commas(
            "onabort,onauxclick,onblur,oncancel,oncanplay,oncanplaythrough,onchange,onclick,onclose,oncontextmenu,oncopy,oncuechange,oncut,ondblclick,ondrag,ondragend,ondragenter,ondragexit,ondragleave,ondragover,ondragstart,ondrop,ondurationchange,onemptied,onended,onerror,onfocus,onformdata,oninput,oninvalid,onkeydown,onkeypress,onkeyup,onload,onloadeddata,onloadedmetadata,onloadstart,onmousedown,onmouseenter,onmouseleave,onmousemove,onmouseout,onmouseover,onmouseup,onpaste,onpause,onplay,onplaying,onprogress,onratechange,onreset,onresize,onscroll,onsecuritypolicyviolation,onseeked,onseeking,onselect,onslotchange,onstalled,onsubmit,onsuspend,ontimeupdate,ontoggle,onvolumechange,onwaiting,onwheel",
        );
        let element_attributes: Vec<(String, Vec<String>)> = vec![
            ea_exec("a", "href,target,download,ping,rel,hreflang,type,referrerpolicy"),
            ea_exec("area", "alt,coords,shape,href,target,download,ping,rel,referrerpolicy"),
            ea_exec("audio", "src,crossorigin,preload,autoplay,loop,muted,controls"),
            ea_exec("base", "href,target"),
            ea_exec("blockquote", "cite"),
            ea_exec(
                "body",
                "onafterprint,onbeforeprint,onbeforeunload,onhashchange,onlanguagechange,onmessage,onmessageerror,onoffline,ononline,onpagehide,onpageshow,onpopstate,onrejectionhandled,onstorage,onunhandledrejection,onunload",
            ),
            ea_exec(
                "button",
                "disabled,form,formaction,formenctype,formmethod,formnovalidate,formtarget,name,type,value",
            ),
            ea_exec("canvas", "width,height"),
            ea_exec("col", "span"),
            ea_exec("colgroup", "span"),
            ea_exec("data", "value"),
            ea_exec("del", "cite,datetime"),
            ea_exec("details", "open"),
            ea_exec("dialog", "open"),
            ea_exec("embed", "src,type,width,height"),
            ea_exec("fieldset", "disabled,form,name"),
            ea_exec(
                "form",
                "accept-charset,action,autocomplete,enctype,method,name,novalidate,target",
            ),
            ea_exec("html", "manifest"),
            ea_exec(
                "iframe",
                "src,srcdoc,name,sandbox,allow,allowfullscreen,allowpaymentrequest,width,height,referrerpolicy,loading",
            ),
            ea_exec(
                "img",
                "alt,src,srcset,sizes,crossorigin,usemap,ismap,width,height,referrerpolicy,decoding,loading",
            ),
            ea_exec(
                "input",
                "accept,alt,autocomplete,checked,dirname,disabled,form,formaction,formenctype,formmethod ,formnovalidate,formtarget,height,list,max,maxlength ,min,minlength,multiple,name,pattern,placeholder,readonly,required,size,src,step,type,value,width",
            ),
            ea_exec("ins", "cite,datetime"),
            ea_exec("label", "for"),
            ea_exec("li", "value"),
            ea_exec(
                "link",
                "href,crossorigin,rel,as,media,hreflang,type,sizes,imagesrcset,imagesizes,referrerpolicy,integrity,color,disabled",
            ),
            ea_exec("map", "name"),
            ea_exec("meta", "name,http-equiv,content,charset"),
            ea_exec("meter", "value,min,max,low,high,optimum"),
            ea_exec("object", "data,type,name,usemap,form,width,height"),
            ea_exec("ol", "reversed,start,type"),
            ea_exec("optgroup", "disabled,label"),
            ea_exec("option", "disabled,label,selected,value"),
            ea_exec("output", "for,form,name"),
            ea_exec("param", "name,value"),
            ea_exec("progress", "value,max"),
            ea_exec("q", "cite"),
            ea_exec("script", "src,type,async,defer,crossorigin,integrity,referrerpolicy"),
            ea_exec("select", "autocomplete,disabled,form,multiple,name,required,size"),
            ea_exec("slot", "name"),
            ea_exec("source", "src,type,srcset,sizes,media"),
            ea_exec("style", "media"),
            ea_exec("td", "colspan,rowspan,headers"),
            ea_exec(
                "textarea",
                "cols,dirname,disabled,form,maxlength,minlength,name,placeholder,readonly,required,rows,wrap",
            ),
            ea_exec("th", "colspan,rowspan,headers,scope,abbr"),
            ea_exec("time", "datetime"),
            ea_exec("track", "default,kind,label,src,srclang"),
            ea_exec(
                "video",
                "src,crossorigin,poster,preload,autoplay,playsinline,loop,muted,controls,width,height",
            ),
        ];
        let c = Converter { globals, event_handler, element_attributes };
        proof {
            lemma_map_view(c.element_attributes@);
            assert(map_view(c.element_attributes@) =~= element_attributes_spec());
        }
        c
    }

    /// A global attribute, an event-handler attribute, or a custom data
    /// attribute.
    fn is_attr(&self, s: &str) -> (r: bool)
        requires
            self.wf(),
        ensures
            r == is_attr_spec(s@),
    {
        if contains_str(&self.globals, s) {
            return true;
        }
        if contains_str(&self.event_handler, s) {
            return true;
        }
        if s.unicode_len() >= 5 {
            let head = s.substring_char(0, 5);
            if head.to_owned() == String::from_str("data-") {
                return true;
            }
        }
        false
    }

    /// Whether `s` is in the per-element attribute table for the element,
    /// compared with the element name folded to lower case.
    fn is_element_attr(&self, element: &str, s: &str) -> (r: bool)
        requires
            self.wf(),
        ensures
            r == is_element_attr_spec(element@, s@),
    {
        let lower = to_lowercase(element);
        let ghost mv = map_view(self.element_attributes@);
        proof {
            lemma_map_view(self.element_attributes@);
            lemma_assoc_find(mv, lower@);
        }
        let mut j: usize = 0;
        let n = self.element_attributes.len();
        while j < n
            invariant
                self.wf(),
                n == self.element_attributes@.len(),
                j <= n,
                lower@ == lower_of(element@),
                mv == map_view(self.element_attributes@),
                forall|j2: int| 0 <= j2 < j ==> (#[trigger] mv[j2]).0 != lower@,
            decreases n - j,
        {
            proof {
                lemma_map_view(self.element_attributes@);
            }
            if self.element_attributes[j].0 == lower {
                proof {
                    lemma_assoc_find(mv, lower@);
                    let f = crate::contents::assoc_find(mv, lower@);
                    assert(mv[j as int].0 == lower@);
                    assert(f != -1);
                    assert(!(f < j));
                    assert(!(f > j));
                }
                return contains_str(&self.element_attributes[j].1, s);
            }
            j += 1;
        }
        proof {
            lemma_assoc_find(mv, lower@);
        }
        false
    }

    /// Append the markup of one target.
    fn convert_target(&self, rst: &mut String, target: &Target)
        requires
            self.wf(),
        ensures
            final(rst)@ == old(rst)@ + html_of_target(target_view(*target)),
        decreases *target,
    {
        let ghost tv = target_view(*target);
        proof {
            assert(tv.text.take(0) =~= Seq::<Seq<char>>::empty());
            assert(rst@ + Seq::<char>::empty() =~= rst@);
        }
        let mut i: usize = 0;
        while i < target.text.len()
            invariant
                i <= target.text@.len(),
                tv == target_view(*target),
                tv.text.len() == target.text@.len(),
                rst@ == old(rst)@ + tags_of_texts(tv.name, tv.text.take(i as int)),
            decreases target.text@.len() - i,
        {
            add_tag(rst, target.name.as_str(), target.text[i].as_str());
            proof {
                assert(tv.text.take(i + 1).drop_last() =~= tv.text.take(i as int));
                assert(tv.text.take(i + 1).last() == tv.text[i as int]);
                assert(tv.text[i as int] == target.text@[i as int]@);
                assert(rst@ =~= old(rst)@ + tags_of_texts(tv.name, tv.text.take(i + 1)));
            }
            i += 1;
        }
        proof {
            assert(tv.text.take(tv.text.len() as int) =~= tv.text);
        }
        let mut attr_str = String::new();
        let mut child_str = String::new();
        proof {
            assert(targets_view(target.value@.take(0)) =~= Seq::<TargetM>::empty());
        }
        let mut k: usize = 0;
        while k < target.value.len()
            invariant
                self.wf(),
                k <= target.value@.len(),
                tv == target_view(*target),
                attr_str@ == html_children(tv.name, targets_view(target.value@.take(k as int))).0,
                child_str@ == html_children(tv.name, targets_view(target.value@.take(k as int))).1,
            decreases target.value@.len() - k,
        {
            let child = &target.value[k];
            let ca = self.is_attr(child.name.as_str());
            let ce = is_element(target.name.as_str(), child.name.as_str());
            let cea = self.is_element_attr(target.name.as_str(), child.name.as_str());
            if (ca && !ce) || cea {
                add_attribute(&mut attr_str, child.name.as_str(), child.text.as_slice());
            } else {
                self.convert_target(&mut child_str, child);
            }
            proof {
                assert(target.value@.take(k + 1).drop_last() =~= target.value@.take(k as int));
                assert(target.value@.take(k + 1).last() == target.value@[k as int]);
                let prev = targets_view(target.value@.take(k as int));
                let cur = targets_view(target.value@.take(k + 1));
                let e = target_view(target.value@[k as int]);
                assert(cur == prev.push(e));
                assert(prev.push(e).drop_last() =~= prev);
                assert(prev.push(e).last() == e);
                assert(e.name == child.name@);
                assert(e.text == strs_view(child.text@));
            }
            k += 1;
        }
        proof {
            assert(target.value@.take(target.value@.len() as int) =~= target.value@);
            assert(targets_view(target.value@) == tv.value);
        }
        if !attr_str.as_str().is_empty() || !child_str.as_str().is_empty() {
            add_tag_with_attribute(rst, target.name.as_str(), attr_str.as_str(), child_str.as_str());
            proof {
                assert(rst@ =~= old(rst)@ + html_of_target(tv));
            }
        } else {
            proof {
                assert(rst@ =~= old(rst)@ + html_of_target(tv));
            }
        }
    }

    /// Convert a target to HTML markup.
    pub fn convert(&self, target: Target) -> (r: String)
        requires
            self.wf(),
        ensures
            r@ == html_of_target(target_view(target)),
    {
        let mut rst = String::new();
        self.convert_target(&mut rst, &target);
        proof {
            assert(Seq::<char>::empty() + html_of_target(target_view(target)) =~= html_of_target(
                target_view(target),
            ));
        }
        rst
    }
}

} // verus!
