//! The page of the interactive tile map: the mosaic image under a grid of
//! cells, and a search box that marks the cells of a tile file.

use vstd::prelude::*;

verus! {

/// The page up to the address of the mosaic image.
pub const HTML_BEFORE_URL: &'static str = r##"<!DOCTYPE html>
<html>
<head>
<meta charset="UTF-8">
<title>Source Image Finder</title>
<style>
* { margin: 0; padding: 0; box-sizing: border-box; }
body { display: flex; flex-direction: column; font-family: sans-serif; background: #f5f5f5; height: 100vh; }
#search-container { padding: 16px; background: #fff; border-bottom: 1px solid #ccc; }
input[type="text"] { width: 100%; max-width: 400px; padding: 8px; font-size: 14px; border: 1px solid #ccc; border-radius: 4px; }
#autocomplete-list { position: absolute; background: #fff; border: 1px solid #ccc; border-top: none; list-style: none; max-height: 200px; overflow-y: auto; display: none; width: 100%; max-width: 400px; }
#autocomplete-list li { padding: 8px 12px; cursor: pointer; }
#autocomplete-list li:hover { background: #eee; }
#image-container { position: relative; flex: 1; overflow: auto; display: flex; align-items: center; justify-content: center; }
#mosaic-image { max-width: 100%; max-height: 100%; }
#grid-overlay { position: fixed; pointer-events: none; }
.grid-cell { position: absolute; border: 1px solid rgba(0, 0, 0, 0.1); box-sizing: border-box; }
.grid-cell.highlight { stroke: #ff0000 !important; stroke-width: 2 !important; }
</style>
</head>
<body>
<div id="search-container">
  <input type="text" id="search-input" placeholder="Search for source image filename..." autocomplete="off">
  <ul id="autocomplete-list"></ul>
</div>
<div id="image-container">
  <img id="mosaic-image" src=""##;

/// The page from the address of the mosaic image up to the map data.
pub const HTML_BEFORE_DATA: &'static str = r##"" alt="Mosaic">
  <svg id="grid-overlay" style="position: fixed; pointer-events: none;"></svg>
</div>
<script>
const data = "##;

/// The page after the map data.
pub const HTML_AFTER_DATA: &'static str = r##";

const searchInput = document.getElementById('search-input');
const autocompleteList = document.getElementById('autocomplete-list');
const mosaicImage = document.getElementById('mosaic-image');
const gridOverlay = document.getElementById('grid-overlay');
const imageContainer = document.getElementById('image-container');

let cellMap = {};
let imageRect = null;

function createGridCells() {
    // Build a map of filename -> array of {row, col}
    const filenameMap = {};
    data.tiles.forEach(tile => {
        if (!filenameMap[tile.file]) {
            filenameMap[tile.file] = [];
        }
        filenameMap[tile.file].push({row: tile.row, col: tile.col});
    });
    cellMap = filenameMap;
}

function getImageRect() {
    if (!imageRect) {
        imageRect = mosaicImage.getBoundingClientRect();
    }
    return imageRect;
}

function drawGrid() {
    gridOverlay.innerHTML = '';
    const rect = getImageRect();

    // Position SVG at the image's screen position
    gridOverlay.style.top = rect.top + 'px';
    gridOverlay.style.left = rect.left + 'px';
    gridOverlay.setAttribute('width', rect.width);
    gridOverlay.setAttribute('height', rect.height);

    const cellWidth = rect.width / data.grid_width;
    const cellHeight = rect.height / data.grid_height;

    for (let row = 0; row < data.grid_height; row++) {
        for (let col = 0; col < data.grid_width; col++) {
            const x = col * cellWidth;
            const y = row * cellHeight;

            const rect_elem = document.createElementNS('http://www.w3.org/2000/svg', 'rect');
            rect_elem.setAttribute('x', x);
            rect_elem.setAttribute('y', y);
            rect_elem.setAttribute('width', cellWidth);
            rect_elem.setAttribute('height', cellHeight);
            rect_elem.setAttribute('fill', 'none');
            rect_elem.setAttribute('stroke', 'rgba(0, 0, 0, 0.1)');
            rect_elem.setAttribute('stroke-width', '1');
            rect_elem.setAttribute('class', `grid-cell row-${row} col-${col}`);
            gridOverlay.appendChild(rect_elem);
        }
    }
}

function updateAutocomplete(value) {
    autocompleteList.innerHTML = '';
    if (!value.trim()) {
        autocompleteList.style.display = 'none';
        return;
    }

    const filtered = data.filenames.filter(f =>
        f.toLowerCase().includes(value.toLowerCase())
    );

    if (filtered.length === 0) {
        autocompleteList.style.display = 'none';
        return;
    }

    filtered.slice(0, 10).forEach(filename => {
        const li = document.createElement('li');
        li.textContent = filename;
        li.addEventListener('click', () => {
            searchInput.value = filename;
            autocompleteList.style.display = 'none';
            highlightCells(filename);
        });
        autocompleteList.appendChild(li);
    });

    autocompleteList.style.display = 'block';
}

function highlightCells(filename) {
    // Clear all highlights
    document.querySelectorAll('rect').forEach(rect => {
        rect.setAttribute('stroke', 'rgba(0, 0, 0, 0.1)');
        rect.setAttribute('stroke-width', '1');
    });

    // Highlight matching cells
    if (cellMap[filename]) {
        cellMap[filename].forEach(pos => {
            const selector = `.row-${pos.row}.col-${pos.col}`;
            const cells = document.querySelectorAll(selector);
            cells.forEach(cell => {
                cell.setAttribute('stroke', '#ff0000');
                cell.setAttribute('stroke-width', '2');
            });
        });
    }
}

searchInput.addEventListener('input', (e) => {
    updateAutocomplete(e.target.value);
});

searchInput.addEventListener('keydown', (e) => {
    if (e.key === 'Enter') {
        const value = searchInput.value.trim();
        if (value && data.filenames.includes(value)) {
            highlightCells(value);
            autocompleteList.style.display = 'none';
        }
    }
});

// Redraw grid on image load, window resize, and scroll
function redrawGrid() {
    imageRect = null;
    drawGrid();
}

mosaicImage.addEventListener('load', redrawGrid);
window.addEventListener('resize', redrawGrid);
imageContainer.addEventListener('scroll', redrawGrid);

// Initialize
createGridCells();
if (mosaicImage.complete) {
    drawGrid();
} else {
    mosaicImage.addEventListener('load', drawGrid);
}
</script>
</body>
</html>
"##;

/// The page for the mosaic at `mosaic_url` with the map data `data_json`
/// (the JSON text of the grid size, image size, tile placements and names).
pub fn generate_html(mosaic_url: &str, data_json: &str) -> (res: Result<String, String>)
    ensures
        res matches Ok(html) && html@ == HTML_BEFORE_URL@ + mosaic_url@ + HTML_BEFORE_DATA@ + data_json@
            + HTML_AFTER_DATA@,
{
    let mut html = String::new();
    html.append(HTML_BEFORE_URL);
    html.append(mosaic_url);
    html.append(HTML_BEFORE_DATA);
    html.append(data_json);
    html.append(HTML_AFTER_DATA);
    Ok(html)
}

} // verus!
