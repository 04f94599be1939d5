//! A standalone HTML page around a rendered graph, with pan and zoom.
use vstd::prelude::*;

use crate::text::{escape_markup, escape_markup_spec, push_str};

verus! {

/// Everything before the page title.
pub open spec fn page_head_spec() -> Seq<char> {
    "<!DOCTYPE html>\n\
    <html lang=\"en\">\n\
    <head>\n\
    <meta charset=\"UTF-8\">\n\
    <meta name=\"viewport\" content=\"width=device-width, initial-scale=1.0\">\n\
    <title>"@
}

/// Between the title and the drawing: the page style and the body start.
pub open spec fn page_style_spec() -> Seq<char> {
    "</title>\n\
    <style>\n\
    body { margin: 0; overflow: hidden; background: #1a1a2e; }\n\
    svg { display: block; width: 100vw; height: 100vh; }\n\
    </style>\n\
    </head>\n\
    <body>\n\
    "@
}

/// After the drawing: the pan and zoom script and the end of the page.
pub open spec fn page_script_spec() -> Seq<char> {
    "\n\
    <script>\n\
    (function() {\n\
    var svg = document.querySelector('svg');\n\
    var vp = document.getElementById('viewport');\n\
    if (!svg || !vp) return;\n\
    var tx = 0, ty = 0, scale = 1;\n\
    var dragging = false, startX, startY;\n\
    function update() {\n\
    vp.setAttribute('transform',\n\
    'translate(' + tx + ',' + ty + ') scale(' + scale + ')');\n\
    }\n\
    svg.addEventListener('mousedown', function(e) {\n\
    dragging = true;\n\
    startX = e.clientX - tx;\n\
    startY = e.clientY - ty;\n\
    e.preventDefault();\n\
    });\n\
    window.addEventListener('mousemove', function(e) {\n\
    if (!dragging) return;\n\
    tx = e.clientX - startX;\n\
    ty = e.clientY - startY;\n\
    update();\n\
    });\n\
    window.addEventListener('mouseup', function() { dragging = false; });\n\
    svg.addEventListener('wheel', function(e) {\n\
    e.preventDefault();\n\
    var factor = e.deltaY < 0 ? 1.1 : 0.9;\n\
    var rect = svg.getBoundingClientRect();\n\
    var mx = e.clientX - rect.left;\n\
    var my = e.clientY - rect.top;\n\
    tx = mx - factor * (mx - tx);\n\
    ty = my - factor * (my - ty);\n\
    scale *= factor;\n\
    update();\n\
    }, { passive: false });\n\
    })();\n\
    </script>\n\
    </body>\n\
    </html>"@
}

/// The page: head, escaped title, style, the drawing as given, script.
pub open spec fn page_spec(svg: Seq<char>, title: Seq<char>) -> Seq<char> {
    page_head_spec() + escape_markup_spec(title) + page_style_spec() + svg + page_script_spec()
}

/// Wraps an SVG drawing in an HTML page titled `title` (escaped), with a
/// script that pans on drag and zooms on the mouse wheel around the
/// drawing's `viewport` group.
pub fn wrap_svg_in_html(svg: &str, title: &str) -> (r: String)
    ensures
        r@ == page_spec(svg@, title@),
{
    let escaped = escape_markup(title);
    let mut out = String::new();
    push_str(
        &mut out,
        "<!DOCTYPE html>\n\
        <html lang=\"en\">\n\
        <head>\n\
        <meta charset=\"UTF-8\">\n\
        <meta name=\"viewport\" content=\"width=device-width, initial-scale=1.0\">\n\
        <title>",
    );
    push_str(&mut out, escaped.as_str());
    push_str(
        &mut out,
        "</title>\n\
        <style>\n\
        body { margin: 0; overflow: hidden; background: #1a1a2e; }\n\
        svg { display: block; width: 100vw; height: 100vh; }\n\
        </style>\n\
        </head>\n\
        <body>\n\
        ",
    );
    push_str(&mut out, svg);
    push_str(
        &mut out,
        "\n\
        <script>\n\
        (function() {\n\
        var svg = document.querySelector('svg');\n\
        var vp = document.getElementById('viewport');\n\
        if (!svg || !vp) return;\n\
        var tx = 0, ty = 0, scale = 1;\n\
        var dragging = false, startX, startY;\n\
        function update() {\n\
        vp.setAttribute('transform',\n\
        'translate(' + tx + ',' + ty + ') scale(' + scale + ')');\n\
        }\n\
        svg.addEventListener('mousedown', function(e) {\n\
        dragging = true;\n\
        startX = e.clientX - tx;\n\
        startY = e.clientY - ty;\n\
        e.preventDefault();\n\
        });\n\
        window.addEventListener('mousemove', function(e) {\n\
        if (!dragging) return;\n\
        tx = e.clientX - startX;\n\
        ty = e.clientY - startY;\n\
        update();\n\
        });\n\
        window.addEventListener('mouseup', function() { dragging = false; });\n\
        svg.addEventListener('wheel', function(e) {\n\
        e.preventDefault();\n\
        var factor = e.deltaY < 0 ? 1.1 : 0.9;\n\
        var rect = svg.getBoundingClientRect();\n\
        var mx = e.clientX - rect.left;\n\
        var my = e.clientY - rect.top;\n\
        tx = mx - factor * (mx - tx);\n\
        ty = my - factor * (my - ty);\n\
        scale *= factor;\n\
        update();\n\
        }, { passive: false });\n\
        })();\n\
        </script>\n\
        </body>\n\
        </html>",
    );
    assert(out@ =~= page_spec(svg@, title@));
    out
}

} // verus!
